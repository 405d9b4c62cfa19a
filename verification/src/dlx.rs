//! Dancing Links (DLX): Knuth's Algorithm X for exact cover.
//!
//! Node layout: index 0 is the root header, indices 1..=N the column
//! headers of the N columns, and the data nodes follow, added row by row.
//! Column selection picks the column with the fewest remaining rows.
pub mod model;
pub mod laws;
pub mod search;
pub mod growth;

use vstd::prelude::*;
use crate::dlx::model::{
    DlxView, hdr, total, is_data, lens_ok, headers_ok, rows_ok, row_ok, linked, list_ok, header_list_ok,
    restore_node,
    live_ok, dlx_wf, all_columns, unlink_col, remove_node, remove_upto, row_others, ops_upto, cover_ops,
    covered, lists_upto, coverable, row_has_col, exact_cover, row_ids, is_solution, lists_with_row, covers_col,
    same_row,
};
use crate::dlx::growth::{row_added, lemma_row_added_wf, lemma_row_added_step, lemma_len_bound};
use crate::dlx::search::{
    search_ok, lemma_search_done, lemma_search_step, lemma_row_cols, cover_chain, chain_step, chain_state,
    rows_apart, row_starts, reported, lemma_cover_of_nothing, lemma_cover_meets, lemma_trace_step,
};
use crate::dlx::laws::{
    lemma_ops_facts, lemma_cover_prefix, lemma_cover_step, lemma_header_unlink, lemma_covered_wf,
    lemma_row_others, lemma_ops_prefix, prefix_ok, lemma_ops_same, uncover_state, lemma_uncover_step, lemma_uncover_frame,
    lemma_covered_keeps,
};

verus! {

/// A Dancing Links structure for exact cover.
pub struct Dlx {
    left: Vec<usize>,
    right: Vec<usize>,
    up: Vec<usize>,
    down: Vec<usize>,
    /// The column header of each node.
    col: Vec<usize>,
    /// The caller's identifier of each data node's row.
    row_id: Vec<usize>,
    /// The number of rows left in each column.
    size: Vec<usize>,
    ncols: Ghost<nat>,
    rstart: Ghost<Seq<int>>,
    rend: Ghost<Seq<int>>,
    lists: Ghost<Seq<Seq<int>>>,
    active: Ghost<Seq<int>>,
}

impl View for Dlx {
    type V = DlxView;

    closed spec fn view(&self) -> DlxView {
        DlxView {
            left: self.left@,
            right: self.right@,
            up: self.up@,
            down: self.down@,
            col: self.col@,
            row_id: self.row_id@,
            size: self.size@,
            ncols: self.ncols@,
            rstart: self.rstart@,
            rend: self.rend@,
            lists: self.lists@,
            active: self.active@,
        }
    }
}

/// Accepts every partial solution.
fn accept_all(_partial: &[usize]) -> (r: bool)
    ensures
        r,
{
    true
}

/// Every answer that a callback of type `F` can give is `true`.
pub open spec fn callback_always_true<F: FnMut(&[usize]) -> bool>() -> bool {
    forall|f: F, sl: &[usize], b: bool| #[trigger] call_ensures(f, (sl,), b) ==> b
}

impl Dlx {
    /// Well formed, with every column in the header list.
    pub open spec fn wf(&self) -> bool {
        dlx_wf(self@) && self@.active == all_columns(self@.ncols)
    }

    /// A structure with `num_cols` columns and no rows.
    pub fn new(num_cols: usize) -> (d: Self)
        requires
            num_cols < usize::MAX,
        ensures
            d.wf(),
            d@.ncols == num_cols,
            total(d@) == num_cols + 1,
            forall|h: int| 0 <= h <= num_cols ==> #[trigger] d@.lists[h].len() == 0,
    {
        let n = num_cols + 1;
        let mut left: Vec<usize> = Vec::new();
        let mut right: Vec<usize> = Vec::new();
        let mut up: Vec<usize> = Vec::new();
        let mut down: Vec<usize> = Vec::new();
        let mut col: Vec<usize> = Vec::new();
        let mut row_id: Vec<usize> = Vec::new();
        let mut size: Vec<usize> = Vec::new();
        let mut i: usize = 0;
        while i < n
            invariant
                n == num_cols + 1,
                i <= n,
                left@.len() == i,
                right@.len() == i,
                up@.len() == i,
                down@.len() == i,
                col@.len() == i,
                row_id@.len() == i,
                size@.len() == i,
                forall|x: int| 0 <= x < i ==> #[trigger] left@[x] == (if x == 0 { num_cols as int } else { x - 1 }),
                forall|x: int| 0 <= x < i ==> #[trigger] right@[x] == (if x == num_cols { 0 } else { x + 1 }),
                forall|x: int| 0 <= x < i ==> #[trigger] up@[x] == x,
                forall|x: int| 0 <= x < i ==> #[trigger] down@[x] == x,
                forall|x: int| 0 <= x < i ==> #[trigger] col@[x] == x,
                forall|x: int| 0 <= x < i ==> #[trigger] size@[x] == 0,
            decreases n - i,
        {
            left.push(if i == 0 { num_cols } else { i - 1 });
            right.push(if i == num_cols { 0 } else { i + 1 });
            up.push(i);
            down.push(i);
            col.push(i);
            row_id.push(0);
            size.push(0);
            i = i + 1;
        }
        let d = Dlx {
            left,
            right,
            up,
            down,
            col,
            row_id,
            size,
            ncols: Ghost(num_cols as nat),
            rstart: Ghost(Seq::new(n as nat, |x: int| 0int)),
            rend: Ghost(Seq::new(n as nat, |x: int| 0int)),
            lists: Ghost(Seq::new(n as nat, |h: int| Seq::<int>::empty())),
            active: Ghost(all_columns(num_cols as nat)),
        };
        proof {
            reveal(dlx_wf);
            let v = d@;
            assert forall|h: int| 1 <= h < hdr(v) implies #[trigger] list_ok(v, h, v.lists[h]) by {
                assert(v.lists[h] =~= Seq::<int>::empty());
                assert(v.down[h] == h);
                assert(v.up[h] == h);
                assert(v.size[h] == 0);
            }
            assert(header_list_ok(v, v.active)) by {
                let a = v.active;
                if num_cols > 0 {
                    assert(a.last() == num_cols);
                }
                assert forall|i: int| 0 <= i < a.len() implies #[trigger] v.right[a[i]] == (if i + 1 < a.len() {
                    a[i + 1]
                } else {
                    0
                }) by {
                    assert(a[i] == i + 1);
                }
                assert forall|i: int| 0 <= i < a.len() implies #[trigger] v.left[a[i]] == (if i > 0 {
                    a[i - 1]
                } else {
                    0
                }) by {
                    assert(a[i] == i + 1);
                }
            }
            assert(lens_ok(v));
            assert(headers_ok(v));
            assert(rows_ok(v));
            assert(live_ok(v));
        }
        d
    }

    /// Adds a row, known to the caller as `row_id`, with a node in each of
    /// the columns `cols`, appended at the bottom of each column. A row with
    /// no columns adds nothing.
    pub fn add_row(&mut self, row_id: usize, cols: &[usize])
        requires
            old(self).wf(),
            forall|i: int, j: int| 0 <= i < j < cols@.len() ==> #[trigger] cols@[i] < #[trigger] cols@[j],
            forall|i: int| 0 <= i < cols@.len() ==> #[trigger] cols@[i] < old(self)@.ncols,
            total(old(self)@) + cols@.len() <= usize::MAX,
        ensures
            final(self).wf(),
            cols@.len() == 0 ==> final(self)@ == old(self)@,
            cols@.len() > 0 ==> row_added(old(self)@, final(self)@, cols@, row_id, cols@.len() as int),
    {
        if cols.len() == 0 {
            return;
        }
        let ghost v = self@;
        let base = self.left.len();
        let len = cols.len();
        proof {
            reveal(dlx_wf);
            assert forall|i: int| 0 <= i < cols@.len() implies #[trigger] cols@[i] + 1 < v.lists.len() by {
            }
            assert(row_added(v, self@, cols@, row_id, 0)) by {
                assert(lists_with_row(v.lists, cols@, base as int, 0) == v.lists);
            }
        }
        let mut i: usize = 0;
        while i < len
            invariant
                dlx_wf(v),
                v.active == all_columns(v.ncols),
                base == total(v),
                len == cols@.len(),
                base + len <= usize::MAX,
                forall|i2: int| 0 <= i2 < cols@.len() ==> #[trigger] cols@[i2] < v.ncols,
                0 <= i <= len,
                row_added(v, self@, cols@, row_id, i as int),
            decreases len - i,
        {
            let ghost s = self@;
            proof {
                reveal(dlx_wf);
            }
            let c = cols[i];
            let h = c + 1;
            let node = base + i;
            proof {
                reveal(dlx_wf);
                assert(list_ok(s, h as int, s.lists[h as int]));
                lemma_len_bound(s.lists[h as int], node as int);
            }
            let prev_up = self.up[h];
            self.left.push(if i == 0 { base + len - 1 } else { node - 1 });
            self.right.push(if i == len - 1 { base } else { node + 1 });
            self.up.push(prev_up);
            self.down.push(h);
            self.col.push(h);
            self.row_id.push(row_id);
            self.size.push(0);
            self.down.set(prev_up, node);
            self.up.set(h, node);
            let sz = self.size[h];
            self.size.set(h, sz + 1);
            self.rstart = Ghost(self.rstart@.push(base as int));
            self.rend = Ghost(self.rend@.push((base + len) as int));
            self.lists = Ghost(self.lists@.update(h as int, self.lists@[h as int].push(node as int)));
            proof {
                lemma_row_added_step(v, s, self@, cols@, row_id, i as int);
            }
            i = i + 1;
        }
        proof {
            lemma_row_added_wf(v, self@, cols@, row_id);
        }
    }

    /// Column `c` leaves the header list and every row through it leaves
    /// the other columns.
    #[verifier::spinoff_prover]
    #[verifier::rlimit(50)]
    fn cover(&mut self, c: usize)
        requires
            dlx_wf(old(self)@),
            old(self)@.active.contains(c as int),
        ensures
            final(self)@ == covered(old(self)@, c as int),
    {
        let ghost v = self@;
        let ghost ops = cover_ops(v, c as int);
        let ghost l = v.lists[c as int];
        let ghost n = l.len() as int;
        let ghost w0 = unlink_col(v, c as int);
        let ghost p = v.active.index_of(c as int);
        proof {
            reveal(dlx_wf);
            assert(v.active[p] == c);
            lemma_ops_facts(v, c as int);
            lemma_header_unlink(v, p);
            lemma_cover_prefix(v, c as int, 0);
            reveal(prefix_ok);
            assert(list_ok(v, c as int, l));
        }
        let lft = self.left[c];
        let rgt = self.right[c];
        self.right.set(lft, rgt);
        self.left.set(rgt, lft);
        assert(self@ == remove_upto(w0, ops, 0));
        let mut i = self.down[c];
        let ghost mut k: int = 0;
        while i != c
            invariant
                dlx_wf(v),
                v.active.contains(c as int),
                1 <= c < hdr(v),
                l == v.lists[c as int],
                n == l.len(),
                list_ok(v, c as int, l),
                ops == cover_ops(v, c as int),
                w0 == unlink_col(v, c as int),
                0 <= k <= n,
                i == (if k < n { l[k] } else { c as int }),
                ops_upto(v, c as int, k).len() <= ops.len(),
                self@ == remove_upto(w0, ops, ops_upto(v, c as int, k).len() as int),
            decreases n - k,
        {
            proof {
                reveal(dlx_wf);
                assert(is_data(v, i as int));
                lemma_row_others(v, i as int);
                lemma_ops_prefix(v, c as int, k + 1, n);
                assert(ops_upto(v, c as int, k + 1) == ops_upto(v, c as int, k) + row_others(v, i as int));
            }
            let ghost ro = row_others(v, i as int);
            let ghost base = ops_upto(v, c as int, k).len() as int;
            proof {
                reveal(dlx_wf);
                lemma_cover_prefix(v, c as int, base);
                reveal(prefix_ok);
                assert forall|tt: int| 0 <= tt < ro.len() implies #[trigger] ops[base + tt] == ro[tt] by {
                    assert(ops_upto(v, c as int, k + 1)[base + tt] == ro[tt]);
                }
            }
            let mut j = self.right[i];
            let ghost mut t: int = 0;
            while j != i
                invariant
                    dlx_wf(v),
                    v.active.contains(c as int),
                    1 <= c < hdr(v),
                    ops == cover_ops(v, c as int),
                    w0 == unlink_col(v, c as int),
                    is_data(v, i as int),
                    ro == row_others(v, i as int),
                    base + ro.len() <= ops.len(),
                    0 <= base,
                    forall|tt: int| 0 <= tt < ro.len() ==> #[trigger] ops[base + tt] == ro[tt],
                    forall|tt: int| 0 <= tt < ro.len() ==> #[trigger] v.right[ro[tt]] == (if tt + 1 < ro.len() { ro[tt + 1] } else { i as int }),
                    forall|tt: int| 0 <= tt < ro.len() ==> is_data(v, #[trigger] ro[tt]),
                    0 <= t <= ro.len(),
                    j == (if t < ro.len() { ro[t] } else { i as int }),
                    self@ == remove_upto(w0, ops, base + t),
                decreases ro.len() - t,
            {
                proof {
                    reveal(dlx_wf);
                    lemma_cover_step(v, c as int, base + t);
                    lemma_cover_prefix(v, c as int, base + t);
                    reveal(prefix_ok);
                    assert(ops[base + t] == j);
                }
                let u = self.up[j];
                let d = self.down[j];
                let h = self.col[j];
                self.up.set(d, u);
                self.down.set(u, d);
                let sz = self.size[h];
                self.size.set(h, sz - 1);
                proof {
                    reveal(dlx_wf);
                    assert(self@ == remove_node(remove_upto(w0, ops, base + t), j as int));
                }
                j = self.right[j];
                proof {
                    reveal(dlx_wf);
                    t = t + 1;
                }
            }
            proof {
                reveal(dlx_wf);
                lemma_cover_prefix(v, c as int, base + ro.len());
                reveal(prefix_ok);
            }
            i = self.down[i];
            proof {
                reveal(dlx_wf);
                k = k + 1;
            }
        }
        proof {
            reveal(dlx_wf);
            assert(k == n);
        }
        self.lists = Ghost(lists_upto(v.lists, v.col, ops, ops.len() as int));
        self.active = Ghost(v.active.remove(p));
        proof {
            reveal(dlx_wf);
            reveal(covered);
        }
    }

    /// Column `c`, covered last, comes back: the rows through it rejoin the
    /// other columns, last removed first, and its header rejoins the list.
    /// Node `j` goes back into its column between the neighbours it remembers.
    fn restore_one(&mut self, j: usize)
        requires
            0 <= j < old(self)@.col.len(),
            old(self)@.col.len() == old(self)@.size.len(),
            old(self)@.col.len() == old(self)@.up.len(),
            old(self)@.col.len() == old(self)@.down.len(),
            0 <= old(self)@.col[j as int] < old(self)@.size.len(),
            old(self)@.size[old(self)@.col[j as int] as int] + 1 <= usize::MAX,
            0 <= old(self)@.up[j as int] < old(self)@.up.len(),
            0 <= old(self)@.down[j as int] < old(self)@.up.len(),
            old(self)@.up[j as int] != j,
            old(self)@.down[j as int] != j,
        ensures
            final(self)@ == restore_node(old(self)@, j as int),
    {
        let h = self.col[j];
        let sz = self.size[h];
        self.size.set(h, sz + 1);
        let d = self.down[j];
        self.up.set(d, j);
        let u = self.up[j];
        self.down.set(u, j);
    }

    #[verifier::spinoff_prover]
    #[verifier::rlimit(50)]
    fn uncover(&mut self, c: usize, Ghost(v): Ghost<DlxView>)
        requires
            dlx_wf(v),
            v.active.contains(c as int),
            old(self)@ == covered(v, c as int),
        ensures
            final(self)@ == v,
    {
        let ghost ops = cover_ops(v, c as int);
        let ghost l = v.lists[c as int];
        let ghost n = l.len() as int;
        let ghost w0 = unlink_col(v, c as int);
        let ghost p = v.active.index_of(c as int);
        let ghost cv = covered(v, c as int);
        proof {
            reveal(dlx_wf);
            assert(v.active[p] == c);
            lemma_ops_facts(v, c as int);
            lemma_header_unlink(v, p);
            lemma_covered_wf(v, c as int);
            assert(list_ok(v, c as int, l));
            lemma_cover_prefix(v, c as int, ops.len() as int);
            reveal(prefix_ok);
            reveal(covered);
            reveal(uncover_state);
            assert(cv == uncover_state(v, c as int, ops.len() as int));
            reveal(coverable);
            lemma_uncover_frame(v, c as int, ops.len() as int);
        }
        let mut i = self.up[c];
        let ghost mut k: int = n;
        while i != c
            invariant
                coverable(v, c as int),
                1 <= c < hdr(v),
                l == v.lists[c as int],
                n == l.len(),
                list_ok(v, c as int, l),
                ops == cover_ops(v, c as int),
                w0 == unlink_col(v, c as int),
                cv == covered(v, c as int),
                forall|x: int| hdr(v) <= x < total(v) ==> #[trigger] w0.left[x] == v.left[x],
                0 <= k <= n,
                i == (if k > 0 { l[k - 1] } else { c as int }),
                ops_upto(v, c as int, k).len() <= ops.len(),
                self@ == uncover_state(v, c as int, ops_upto(v, c as int, k).len() as int),
            decreases k,
        {
            proof {
                reveal(dlx_wf);
                reveal(coverable);
                assert(is_data(v, i as int));
                lemma_row_others(v, i as int);
                lemma_ops_prefix(v, c as int, k, n);
                lemma_ops_prefix(v, c as int, k - 1, n);
                assert(ops_upto(v, c as int, k) == ops_upto(v, c as int, k - 1) + row_others(v, i as int));
            }
            let ghost ro = row_others(v, i as int);
            let ghost base = ops_upto(v, c as int, k - 1).len() as int;
            proof {
                reveal(dlx_wf);
                assert forall|tt: int| 0 <= tt < ro.len() implies #[trigger] ops[base + tt] == ro[tt] by {
                    assert(ops_upto(v, c as int, k)[base + tt] == ro[tt]);
                }
                lemma_uncover_frame(v, c as int, base + ro.len());
            }
            let mut j = self.left[i];
            let ghost mut t: int = ro.len() as int;
            while j != i
                invariant
                    coverable(v, c as int),
                    1 <= c < hdr(v),
                    ops == cover_ops(v, c as int),
                    w0 == unlink_col(v, c as int),
                    cv == covered(v, c as int),
                    forall|x: int| hdr(v) <= x < total(v) ==> #[trigger] w0.left[x] == v.left[x],
                    is_data(v, i as int),
                    ro == row_others(v, i as int),
                    base + ro.len() <= ops.len(),
                    0 <= base,
                    forall|tt: int| 0 <= tt < ro.len() ==> #[trigger] ops[base + tt] == ro[tt],
                    forall|tt: int| 0 <= tt < ro.len() ==> #[trigger] v.left[ro[tt]] == (if tt > 0 { ro[tt - 1] } else { i as int }),
                    forall|tt: int| 0 <= tt < ro.len() ==> is_data(v, #[trigger] ro[tt]),
                    0 <= t <= ro.len(),
                    j == (if t > 0 { ro[t - 1] } else { i as int }),
                    self@ == uncover_state(v, c as int, base + t),
                    self@.left == w0.left,
                    self@.left.len() == total(v),
                decreases t,
            {
                proof {
                    reveal(dlx_wf);
                    lemma_uncover_step(v, c as int, base + t);
                    let tt = t - 1;
                    assert(ops[base + tt] == ro[tt]);
                }
                self.restore_one(j);
                proof {
                    reveal(dlx_wf);
                    assert(self@ == uncover_state(v, c as int, base + t - 1));
                }
                j = self.left[j];
                proof {
                    reveal(dlx_wf);
                    t = t - 1;
                }
            }
            proof {
                reveal(dlx_wf);
                lemma_uncover_frame(v, c as int, base);
                if k >= 2 {
                    assert(v.up[l[k - 1]] == l[k - 2]);
                }
            }
            i = self.up[i];
            proof {
                reveal(dlx_wf);
                k = k - 1;
            }
        }
        let lft = self.left[c];
        let rgt = self.right[c];
        self.right.set(lft, c);
        self.left.set(rgt, c);
        self.lists = Ghost(v.lists);
        self.active = Ghost(v.active);
        proof {
            reveal(dlx_wf);
            reveal(uncover_state);
            lemma_cover_prefix(v, c as int, 0);
            reveal(prefix_ok);
            assert(self.left@ == v.left);
            assert(self.right@ == v.right);
        }
    }

    /// The active column with the fewest rows, the leftmost of those.
    fn choose_column(&self) -> (c: usize)
        requires
            dlx_wf(self@),
            self@.active.len() > 0,
        ensures
            exists|p: int|
                0 <= p < self@.active.len() && self@.active[p] == c && (forall|q: int|
                    0 <= q < self@.active.len() ==> self@.size[#[trigger] self@.active[q]] >= self@.size[c as int]) && (forall|q: int|
                    0 <= q < p ==> self@.size[#[trigger] self@.active[q]] > self@.size[c as int]),
    {
        let ghost a = self@.active;
        proof {
            reveal(dlx_wf);
            assert(1 <= a[0] < hdr(self@));
        }
        let mut best = self.right[0];
        let mut best_size = self.size[best];
        let mut c = self.right[best];
        let ghost mut q: int = 1;
        let ghost mut bp: int = 0;
        while c != 0 && best_size > 0
            invariant
                dlx_wf(self@),
                a == self@.active,
                a.len() > 0,
                1 <= q <= a.len(),
                c == (if q < a.len() { a[q] } else { 0 }),
                0 <= bp < q,
                best == a[bp],
                best_size == self@.size[best as int],
                forall|r: int| 0 <= r < q ==> self@.size[#[trigger] a[r]] >= best_size,
                forall|r: int| 0 <= r < bp ==> self@.size[#[trigger] a[r]] > best_size,
            decreases a.len() - q,
        {
            proof {
                reveal(dlx_wf);
                assert(1 <= a[q] < hdr(self@));
            }
            if self.size[c] < best_size {
                best_size = self.size[c];
                best = c;
                proof {
                    bp = q;
                }
            }
            c = self.right[c];
            proof {
                q = q + 1;
            }
        }
        proof {
            assert(forall|r: int| 0 <= r < a.len() ==> self@.size[#[trigger] a[r]] >= best_size);
        }
        best
    }

    /// Covers, left to right, the columns of the nodes of row `r` other
    /// than `r`, where `r` was linked into active column `c` of `s` and `c`
    /// is now covered; returns the states passed through.
    #[verifier::spinoff_prover]
    #[verifier::rlimit(80)]
    fn cover_row_others(&mut self, r: usize, Ghost(s): Ghost<DlxView>, Ghost(c): Ghost<int>) -> (states: Ghost<Seq<DlxView>>)
        requires
            dlx_wf(s),
            s.active.contains(c),
            s.lists[c].contains(r as int),
            old(self)@ == covered(s, c),
        ensures
            cover_chain(s, r as int, states@),
            states@[0] == old(self)@,
            final(self)@ == states@.last(),
            forall|h: int| #[trigger] final(self)@.active.contains(h) <==> s.active.contains(h) && !row_has_col(s, r as int, h),
            final(self)@.active.len() < s.active.len(),
            forall|g: int, y: int| 0 <= g < hdr(s) && #[trigger] final(self)@.lists[g].contains(y) ==> s.lists[g].contains(y),
            dlx_wf(final(self)@),
            final(self)@.col == s.col,
            final(self)@.rstart == s.rstart,
            final(self)@.rend == s.rend,
            final(self)@.row_id == s.row_id,
            final(self)@.ncols == s.ncols,
            total(final(self)@) == total(s),
            forall|g: int, y: int|
                0 <= g < hdr(s) && #[trigger] s.lists[g].contains(y) && rows_apart(s, r as int, y)
                    ==> final(self)@.lists[g].contains(y),
    {
        let ghost v1 = self@;
        let ghost ro = row_others(s, r as int);
        proof {
            lemma_covered_wf(s, c);
            lemma_row_cols(s, c, r as int);
            assert(lens_ok(v1) && rows_ok(v1)) by {
                reveal(dlx_wf);
            }
            lemma_row_others(v1, r as int);
            assert(row_others(v1, r as int) == ro);
            assert(lens_ok(s) && rows_ok(s)) by {
                reveal(dlx_wf);
            }
            lemma_row_others(s, r as int);
        }
        let ghost mut states: Seq<DlxView> = seq![v1];
        proof {
            assert(chain_state(s, states, 0));
            assert(row_has_col(s, r as int, c)) by {
                assert(same_row(s, r as int, r as int) && s.col[r as int] == c);
            }
            assert forall|g: int, y: int|
                0 <= g < hdr(s) && #[trigger] s.lists[g].contains(y) && rows_apart(s, r as int, y) implies v1.lists[g].contains(
                y,
            ) by {
                lemma_covered_keeps(s, c, g, y);
            }
        }
        let mut j = self.right[r];
        let ghost mut t: int = 0;
        while j != r
            invariant
                dlx_wf(s),
                s.active.contains(c),
                s.lists[c].contains(r as int),
                is_data(s, r as int),
                ro == row_others(s, r as int),
                forall|tt: int| 0 <= tt < ro.len() ==> is_data(s, #[trigger] ro[tt]),
                forall|tt: int| 0 <= tt < ro.len() ==> s.active.contains(#[trigger] s.col[ro[tt]] as int) && s.col[ro[tt]] != c,
                forall|t1: int, t2: int| 0 <= t1 < t2 < ro.len() ==> #[trigger] s.col[ro[t1]] != #[trigger] s.col[ro[t2]],
                forall|h: int| #[trigger] v1.active.contains(h) <==> s.active.contains(h) && h != c,
                forall|g: int, y: int| 0 <= g < hdr(s) && #[trigger] v1.lists[g].contains(y) ==> s.lists[g].contains(y),
                v1.active.len() + 1 == s.active.len(),
                0 <= t <= ro.len(),
                states.len() == t + 1,
                states[0] == v1,
                self@ == states[t],
                j == (if t < ro.len() { ro[t] } else { r as int }),
                forall|t2: int| 0 <= t2 <= t ==> #[trigger] chain_state(s, states, t2),
                forall|t2: int| 0 <= t2 < t ==> #[trigger] chain_step(s, ro, states, t2),
                forall|h: int| #[trigger] states[t].active.contains(h) <==> v1.active.contains(h) && !(exists|t2: int|
                    0 <= t2 < t && #[trigger] s.col[ro[t2]] == h),
                states[t].active.len() + t == v1.active.len(),
                forall|g: int, y: int| 0 <= g < hdr(s) && #[trigger] states[t].lists[g].contains(y) ==> v1.lists[g].contains(y),
                forall|g: int, y: int|
                    0 <= g < hdr(s) && #[trigger] s.lists[g].contains(y) && rows_apart(s, r as int, y)
                        ==> states[t].lists[g].contains(y),
            decreases ro.len() - t,
        {
            proof {
                assert(chain_state(s, states, t));
                assert(is_data(s, j as int));
                assert(lens_ok(states[t])) by {
                    reveal(dlx_wf);
                }
            }
            let cj = self.col[j];
            proof {
                let st = states[t];
                assert(st.active.contains(cj as int)) by {
                    assert(v1.active.contains(cj as int));
                    if exists|t2: int| 0 <= t2 < t && #[trigger] s.col[ro[t2]] == cj {
                        let t2 = choose|t2: int| 0 <= t2 < t && #[trigger] s.col[ro[t2]] == cj;
                        assert(s.col[ro[t2]] != s.col[ro[t]]);
                    }
                }
                lemma_covered_wf(st, cj as int);
                lemma_row_cols(s, c, r as int);
                assert(row_has_col(s, r as int, cj as int)) by {
                    assert(s.col[ro[t]] == cj);
                }
                assert forall|g: int, y: int|
                    0 <= g < hdr(s) && #[trigger] s.lists[g].contains(y) && rows_apart(s, r as int, y) implies covered(
                    st,
                    cj as int,
                ).lists[g].contains(y) by {
                    assert(!row_has_col(s, y, cj as int));
                    assert(!row_has_col(st, y, cj as int)) by {
                        if row_has_col(st, y, cj as int) {
                            let z = choose|z: int| same_row(st, y, z) && #[trigger] st.col[z] == cj;
                            assert(same_row(s, y, z) && s.col[z] == cj);
                        }
                    }
                    assert(st.lists[g].contains(y));
                    lemma_covered_keeps(st, cj as int, g, y);
                }
            }
            self.cover(cj);
            proof {
                let st2 = self@;
                let prev = states;
                states = states.push(st2);
                t = t + 1;
                assert(chain_step(s, ro, states, t - 1));
                assert(chain_state(s, states, t));
                assert forall|h: int| #[trigger] st2.active.contains(h) <==> v1.active.contains(h) && !(exists|t2: int|
                    0 <= t2 < t && #[trigger] s.col[ro[t2]] == h) by {
                    if exists|t2: int| 0 <= t2 < t - 1 && #[trigger] s.col[ro[t2]] == h {
                        let t2 = choose|t2: int| 0 <= t2 < t - 1 && #[trigger] s.col[ro[t2]] == h;
                        assert(0 <= t2 < t && s.col[ro[t2]] == h);
                    }
                    if exists|t2: int| 0 <= t2 < t && #[trigger] s.col[ro[t2]] == h {
                        let t2 = choose|t2: int| 0 <= t2 < t && #[trigger] s.col[ro[t2]] == h;
                        if t2 < t - 1 {
                            assert(exists|t3: int| 0 <= t3 < t - 1 && #[trigger] s.col[ro[t3]] == h);
                        }
                    }
                }
                assert forall|t2: int| 0 <= t2 <= t implies #[trigger] chain_state(s, states, t2) by {
                    if t2 < t {
                        assert(states[t2] == prev[t2]);
                        assert(chain_state(s, prev, t2));
                    }
                }
                assert forall|t2: int| 0 <= t2 < t implies #[trigger] chain_step(s, ro, states, t2) by {
                    assert(states[t2] == prev[t2]);
                    if t2 + 1 < t {
                        assert(states[t2 + 1] == prev[t2 + 1]);
                        assert(chain_step(s, ro, prev, t2));
                    }
                }
                assert(lens_ok(st2) && rows_ok(st2)) by {
                    reveal(dlx_wf);
                }
                lemma_row_others(st2, r as int);
                assert(row_others(st2, r as int) == ro);
            }
            j = self.right[j];
        }
        proof {
            reveal(cover_chain);
            assert(chain_state(s, states, t));
            let s2 = self@;
            lemma_row_cols(s, c, r as int);
            assert forall|h: int| #[trigger] s2.active.contains(h) <==> s.active.contains(h) && !row_has_col(s, r as int, h) by {
                if exists|t2: int| 0 <= t2 < t && #[trigger] s.col[ro[t2]] == h {
                    let t2 = choose|t2: int| 0 <= t2 < t && #[trigger] s.col[ro[t2]] == h;
                }
            }
            assert forall|g: int, y: int| 0 <= g < hdr(s) && #[trigger] s2.lists[g].contains(y) implies s.lists[g].contains(y) by {
                assert(v1.lists[g].contains(y));
            }
        }
        Ghost(states)
    }

    /// Uncovers, right to left, the columns that `cover_row_others` covered.
    fn uncover_row_others(&mut self, r: usize, Ghost(s): Ghost<DlxView>, Ghost(states): Ghost<Seq<DlxView>>)
        requires
            cover_chain(s, r as int, states),
            is_data(s, r as int),
            dlx_wf(s),
            old(self)@ == states.last(),
        ensures
            final(self)@ == states[0],
    {
        let ghost ro = row_others(s, r as int);
        let ghost mut t: int = ro.len() as int;
        proof {
            reveal(cover_chain);
            assert(chain_state(s, states, t));
            assert(lens_ok(self@) && rows_ok(self@)) by {
                reveal(dlx_wf);
            }
            lemma_row_others(self@, r as int);
            assert(row_others(self@, r as int) == ro);
            assert(lens_ok(s) && rows_ok(s)) by {
                reveal(dlx_wf);
            }
            lemma_row_others(s, r as int);
        }
        let mut j = self.left[r];
        while j != r
            invariant
                states.len() == ro.len() + 1,
                forall|t2: int| 0 <= t2 <= ro.len() ==> #[trigger] chain_state(s, states, t2),
                forall|t2: int| 0 <= t2 < ro.len() ==> #[trigger] chain_step(s, ro, states, t2),
                is_data(s, r as int),
                dlx_wf(s),
                ro == row_others(s, r as int),
                forall|tt: int| 0 <= tt < ro.len() ==> is_data(s, #[trigger] ro[tt]),
                0 <= t <= ro.len(),
                self@ == states[t],
                j == (if t > 0 { ro[t - 1] } else { r as int }),
            decreases t,
        {
            proof {
                assert(chain_state(s, states, t));
                assert(lens_ok(states[t])) by {
                    reveal(dlx_wf);
                }
            }
            let cj = self.col[j];
            proof {
                assert(chain_step(s, ro, states, t - 1));
                assert(chain_state(s, states, t - 1));
            }
            self.uncover(cj, Ghost(states[t - 1]));
            proof {
                t = t - 1;
                assert(lens_ok(self@) && rows_ok(self@)) by {
                reveal(dlx_wf);
            }
            lemma_row_others(self@, r as int);
                assert(row_others(self@, r as int) == ro);
            }
            j = self.left[j];
        }
    }

    /// Algorithm X from search state `self`, reached from `v0` by choosing
    /// the rows through `chosen`: reports through `callback` each way of
    /// completing them to an exact cover, and returns whether the search
    /// ran to its end, with the chosen nodes of each report, in order (the
    /// callback gets `sol0` followed by their identifiers). Without pruning,
    /// and with a callback that always answers `true`, every exact cover of
    /// the state is reported: its rows, with the chosen ones, are those of
    /// some report.
    #[verifier::rlimit(40)]
    fn search_rec<F, G>(
        &mut self,
        solution: &mut Vec<usize>,
        check: bool,
        row_check: &mut G,
        callback: &mut F,
        Ghost(v0): Ghost<DlxView>,
        Ghost(sol0): Ghost<Seq<usize>>,
        Ghost(chosen): Ghost<Seq<int>>,
    ) -> (res: (bool, Ghost<Seq<Seq<int>>>)) where F: FnMut(&[usize]) -> bool, G: FnMut(&[usize]) -> bool
        requires
            search_ok(v0, old(self)@, chosen),
            old(solution)@ == sol0 + row_ids(v0, chosen),
            forall|f: F, sl: &[usize]| is_solution(v0, sol0, sl@) ==> call_requires(f, (sl,)),
            check ==> forall|g: G, sl: &[usize]| call_requires(g, (sl,)),
        ensures
            final(self)@ == old(self)@,
            final(solution)@ == old(solution)@,
            !res.0 ==> exists|sl: Seq<usize>| #[trigger] is_solution(v0, sol0, sl),
            callback_always_true::<F>() ==> res.0,
            !check && callback_always_true::<F>() ==> forall|rest: Seq<int>|
                #[trigger] exact_cover(old(self)@, rest) ==> reported(v0, res.1@, chosen + rest),
        decreases old(self)@.active.len(),
    {
        let ghost s = self@;
        proof {
            reveal(dlx_wf);
            if s.active.len() > 0 {
                assert(1 <= s.active[0] < hdr(s));
            }
        }
        if self.right[0] == 0 {
            let ghost trace: Seq<Seq<int>> = seq![chosen];
            proof {
                reveal(dlx_wf);
                lemma_search_done(v0, s, chosen);
                assert(exact_cover(v0, chosen) && solution@ == sol0 + row_ids(v0, chosen));
                assert(is_solution(v0, sol0, solution@));
                assert(s.active.len() == 0);
                assert forall|rest: Seq<int>| #[trigger] exact_cover(s, rest) implies reported(v0, trace, chosen + rest) by {
                    lemma_cover_of_nothing(s, rest);
                    assert(chosen + rest =~= chosen);
                    assert(row_starts(v0, trace[0]) == row_starts(v0, chosen + rest));
                }
            }
            let b = callback(solution.as_slice());
            return (b, Ghost(trace));
        }
        let c = self.choose_column();
        proof {
            reveal(dlx_wf);
            let p = choose|p: int| 0 <= p < s.active.len() && s.active[p] == c;
            assert(1 <= s.active[p] < hdr(s));
            assert(s.active.contains(c as int));
        }
        if self.size[c] == 0 {
            proof {
                reveal(dlx_wf);
                assert(list_ok(s, c as int, s.lists[c as int]));
                assert forall|rest: Seq<int>| !#[trigger] exact_cover(s, rest) by {
                    if exact_cover(s, rest) {
                        lemma_cover_meets(s, c as int, rest);
                    }
                }
            }
            return (true, Ghost(Seq::empty()));
        }
        proof {
            reveal(dlx_wf);
            lemma_covered_wf(s, c as int);
        }
        self.cover(c);
        let ghost v1 = self@;
        let ghost l = s.lists[c as int];
        proof {
            reveal(dlx_wf);
            assert(list_ok(v1, c as int, l));
        }
        let mut r = self.down[c];
        let ghost mut k: int = 0;
        let ghost mut trace: Seq<Seq<int>> = Seq::empty();
        let mut cont = true;
        while r != c && cont
            invariant
                search_ok(v0, s, chosen),
                s.active.contains(c as int),
                1 <= c < hdr(s),
                v1 == covered(s, c as int),
                dlx_wf(v1),
                l == s.lists[c as int],
                list_ok(v1, c as int, l),
                v1.col == s.col,
                v1.rstart == s.rstart,
                v1.rend == s.rend,
                v1.row_id == s.row_id,
                v1.ncols == s.ncols,
                total(v1) == total(s),
                v1.active.len() + 1 == s.active.len(),
                forall|h: int| #[trigger] v1.active.contains(h) <==> s.active.contains(h) && h != c,
                forall|g: int, y: int| 0 <= g < hdr(s) && #[trigger] v1.lists[g].contains(y) ==> s.lists[g].contains(y),
                self@ == v1,
                solution@ == sol0 + row_ids(v0, chosen),
                0 <= k <= l.len(),
                r == (if k < l.len() { l[k] } else { c as int }),
                s == old(self)@,
                !cont ==> exists|sl: Seq<usize>| #[trigger] is_solution(v0, sol0, sl),
                callback_always_true::<F>() ==> cont,
                forall|f: F, sl: &[usize]| is_solution(v0, sol0, sl@) ==> call_requires(f, (sl,)),
                check ==> forall|g: G, sl: &[usize]| call_requires(g, (sl,)),
                !check && callback_always_true::<F>() ==> forall|rest: Seq<int>|
                    #[trigger] exact_cover(s, rest) && (exists|k1: int, i: int|
                        0 <= k1 < k && 0 <= i < rest.len() && #[trigger] same_row(s, rest[i], l[k1])) ==> reported(v0, trace, chosen + rest),
            decreases l.len() - k,
        {
            proof {
                reveal(dlx_wf);
                assert(l.contains(r as int));
                lemma_row_cols(s, c as int, r as int);
                assert(lens_ok(v1) && rows_ok(v1)) by {
                reveal(dlx_wf);
            }
            lemma_row_others(v1, r as int);
            }
            let ghost ro = row_others(s, r as int);
            let ghost sol1 = solution@;
            solution.push(self.row_id[r]);
            let states = self.cover_row_others(r, Ghost(s), Ghost(c as int));
            proof {
                reveal(dlx_wf);
                let s2 = self@;
                lemma_search_step(v0, s, chosen, c as int, r as int, s2);
                assert(row_ids(v0, chosen.push(r as int)) == row_ids(v0, chosen).push(v0.row_id[r as int]));
                assert(solution@ == sol0 + row_ids(v0, chosen.push(r as int)));
            }
            let keep = if check {
                row_check(solution.as_slice())
            } else {
                true
            };
            let ghost s2 = self@;
            let ghost trace0 = trace;
            if keep {
                let (c2, sub) = self.search_rec(
                    solution,
                    check,
                    row_check,
                    callback,
                    Ghost(v0),
                    Ghost(sol0),
                    Ghost(chosen.push(r as int)),
                );
                cont = c2;
                proof {
                    trace = trace0 + sub@;
                    if !check && callback_always_true::<F>() {
                        lemma_trace_step(v0, s, c as int, l, k, r as int, s2, chosen, trace0, sub@);
                    }
                }
            }
            solution.pop();
            proof {
                reveal(dlx_wf);
                assert(solution@ == sol1);
            }
            self.uncover_row_others(r, Ghost(s), Ghost(states@));
            r = self.down[r];
            proof {
                reveal(dlx_wf);
                k = k + 1;
            }
        }
        proof {
            if !check && callback_always_true::<F>() {
                assert(k == l.len()) by {
                    if k < l.len() {
                        assert(is_data(v1, l[k]));
                    }
                }
                assert forall|rest: Seq<int>| #[trigger] exact_cover(s, rest) implies reported(v0, trace, chosen + rest) by {
                    lemma_cover_meets(s, c as int, rest);
                }
            }
        }
        self.uncover(c, Ghost(s));
        (cont, Ghost(trace))
    }

    /// Runs Algorithm X, calling `row_check` with the partial solution
    /// after each row is chosen (a `false` prunes that branch) and
    /// `callback` with each complete solution: `solution` followed by the
    /// identifiers of the rows of an exact cover. A `false` from `callback`
    /// stops the search, and then the result is `false`; otherwise it is
    /// `true`. The structure and `solution` come back as they were.
    pub fn search_with_check<F, G>(&mut self, solution: &mut Vec<usize>, row_check: &mut G, callback: &mut F) -> (cont:
        bool) where F: FnMut(&[usize]) -> bool, G: FnMut(&[usize]) -> bool
        requires
            old(self).wf(),
            forall|f: F, sl: &[usize]| is_solution(old(self)@, old(solution)@, sl@) ==> call_requires(f, (sl,)),
            forall|g: G, sl: &[usize]| call_requires(g, (sl,)),
        ensures
            final(self)@ == old(self)@,
            final(solution)@ == old(solution)@,
            !cont ==> exists|sl: Seq<usize>| #[trigger] is_solution(old(self)@, old(solution)@, sl),
            callback_always_true::<F>() ==> cont,
    {
        let ghost v0 = self@;
        let ghost sol0 = solution@;
        proof {
            reveal(dlx_wf);
            let e = Seq::<int>::empty();
            assert(row_ids(v0, e) =~= Seq::<usize>::empty());
            assert(solution@ == sol0 + row_ids(v0, e));
            assert forall|h: int| #[trigger] v0.active.contains(h) <==> v0.active.contains(h) && !covers_col(v0, e, h) by {
            }
            assert(search_ok(v0, v0, e));
        }
        let (cont, _) = self.search_rec(solution, true, row_check, callback, Ghost(v0), Ghost(sol0), Ghost(Seq::empty()));
        cont
    }

    /// Runs Algorithm X, calling `callback` with each complete solution;
    /// see `search_with_check`, with no pruning.
    pub fn search<F>(&mut self, solution: &mut Vec<usize>, callback: &mut F) -> (cont: bool) where
        F: FnMut(&[usize]) -> bool,
        requires
            old(self).wf(),
            forall|f: F, sl: &[usize]| is_solution(old(self)@, old(solution)@, sl@) ==> call_requires(f, (sl,)),
        ensures
            final(self)@ == old(self)@,
            final(solution)@ == old(solution)@,
            !cont ==> exists|sl: Seq<usize>| #[trigger] is_solution(old(self)@, old(solution)@, sl),
            callback_always_true::<F>() ==> cont,
    {
        let ghost v0 = self@;
        let ghost sol0 = solution@;
        proof {
            reveal(dlx_wf);
            let e = Seq::<int>::empty();
            assert(row_ids(v0, e) =~= Seq::<usize>::empty());
            assert(solution@ == sol0 + row_ids(v0, e));
            assert forall|h: int| #[trigger] v0.active.contains(h) <==> v0.active.contains(h) && !covers_col(v0, e, h) by {
            }
            assert(search_ok(v0, v0, e));
        }
        let mut accept = accept_all;
        let (cont, _) = self.search_rec(solution, false, &mut accept, callback, Ghost(v0), Ghost(sol0), Ghost(Seq::empty()));
        cont
    }
}

} // verus!
