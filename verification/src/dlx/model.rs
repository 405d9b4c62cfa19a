//! The abstract state of a Dancing Links structure, its well-formedness,
//! and the link operations of covering and uncovering a column.
use vstd::prelude::*;

verus! {

/// The links of the structure, and what they stand for: the rows (each a
/// run of consecutive nodes), the nodes linked into each column, in order,
/// and the columns still linked into the header list, in order.
pub struct DlxView {
    pub left: Seq<usize>,
    pub right: Seq<usize>,
    pub up: Seq<usize>,
    pub down: Seq<usize>,
    pub col: Seq<usize>,
    pub row_id: Seq<usize>,
    pub size: Seq<usize>,
    /// Number of columns.
    pub ncols: nat,
    /// For each data node, the first node of its row and the node after its row.
    pub rstart: Seq<int>,
    pub rend: Seq<int>,
    /// For each column header, the data nodes linked into the column, top to bottom.
    pub lists: Seq<Seq<int>>,
    /// The column headers linked into the header list, left to right.
    pub active: Seq<int>,
}

/// Number of header nodes: the root and one per column.
pub open spec fn hdr(v: DlxView) -> int {
    v.ncols as int + 1
}

/// Number of nodes.
pub open spec fn total(v: DlxView) -> int {
    v.left.len() as int
}

/// Node `x` is a data node.
pub open spec fn is_data(v: DlxView, x: int) -> bool {
    hdr(v) <= x < total(v)
}

/// Every table has one entry per node, and every link names a node.
pub open spec fn lens_ok(v: DlxView) -> bool {
    let t = total(v);
    &&& v.right.len() == t
    &&& v.up.len() == t
    &&& v.down.len() == t
    &&& v.col.len() == t
    &&& v.row_id.len() == t
    &&& v.size.len() == t
    &&& v.rstart.len() == t
    &&& v.rend.len() == t
    &&& hdr(v) <= t <= usize::MAX
    &&& v.lists.len() == hdr(v)
    &&& forall|x: int| 0 <= x < t ==> #[trigger] v.left[x] < t
    &&& forall|x: int| 0 <= x < t ==> #[trigger] v.right[x] < t
    &&& forall|x: int| 0 <= x < t ==> #[trigger] v.up[x] < t
    &&& forall|x: int| 0 <= x < t ==> #[trigger] v.down[x] < t
    &&& forall|x: int| 0 <= x < t ==> #[trigger] v.col[x] < hdr(v)
}

/// Every header is its own column.
pub open spec fn headers_ok(v: DlxView) -> bool {
    forall|h: int| 0 <= h < hdr(v) ==> #[trigger] v.col[h] == h
}

/// Data node `x` lies in a run of consecutive nodes, its row, linked left
/// and right in a cycle.
pub open spec fn row_ok(v: DlxView, x: int) -> bool {
    &&& hdr(v) <= v.rstart[x] <= x < v.rend[x] <= total(v)
    &&& v.right[x] == (if x + 1 < v.rend[x] {
        x + 1
    } else {
        v.rstart[x]
    })
    &&& v.left[x] == (if x > v.rstart[x] {
        x - 1
    } else {
        v.rend[x] - 1
    })
    &&& 1 <= v.col[x] < hdr(v)
}

/// Nodes `x` and `y` lie in the same row.
pub open spec fn same_row(v: DlxView, x: int, y: int) -> bool {
    v.rstart[x] <= y < v.rend[x]
}

/// Every data node lies in a row; a row's nodes agree on where it starts
/// and ends, and their columns increase from left to right.
pub open spec fn rows_ok(v: DlxView) -> bool {
    &&& forall|x: int| is_data(v, x) ==> #[trigger] row_ok(v, x)
    &&& forall|x: int, y: int|
        #![trigger v.rstart[x], v.rstart[y]]
        is_data(v, x) && same_row(v, x, y) ==> v.rstart[y] == v.rstart[x] && v.rend[y] == v.rend[x]
    &&& forall|x: int, y: int|
        #![trigger v.col[x], v.col[y]]
        is_data(v, x) && same_row(v, x, y) && x < y ==> v.col[x] < v.col[y]
}

/// The nodes `l`, top to bottom, are linked into column `h` in a cycle
/// through its header, and the column's count is their number.
pub open spec fn list_ok(v: DlxView, h: int, l: Seq<int>) -> bool {
    &&& l.no_duplicates()
    &&& forall|i: int| 0 <= i < l.len() ==> is_data(v, #[trigger] l[i]) && v.col[l[i]] == h
    &&& v.down[h] == (if l.len() > 0 {
        l[0]
    } else {
        h
    })
    &&& v.up[h] == (if l.len() > 0 {
        l.last()
    } else {
        h
    })
    &&& forall|i: int|
        0 <= i < l.len() ==> #[trigger] v.down[l[i]] == (if i + 1 < l.len() {
            l[i + 1]
        } else {
            h
        })
    &&& forall|i: int|
        0 <= i < l.len() ==> #[trigger] v.up[l[i]] == (if i > 0 {
            l[i - 1]
        } else {
            h
        })
    &&& v.size[h] == l.len()
}

/// Every column's nodes are linked as `lists` says.
pub open spec fn linked(v: DlxView, lists: Seq<Seq<int>>) -> bool {
    &&& lists.len() == hdr(v)
    &&& lists[0].len() == 0
    &&& forall|h: int| 1 <= h < hdr(v) ==> #[trigger] list_ok(v, h, lists[h])
}

/// The column headers `a`, left to right, are linked in a cycle through the root.
pub open spec fn header_list_ok(v: DlxView, a: Seq<int>) -> bool {
    &&& forall|i: int, j: int| 0 <= i < j < a.len() ==> #[trigger] a[i] < #[trigger] a[j]
    &&& forall|i: int| 0 <= i < a.len() ==> 1 <= #[trigger] a[i] < hdr(v)
    &&& v.right[0] == (if a.len() > 0 {
        a[0]
    } else {
        0
    })
    &&& v.left[0] == (if a.len() > 0 {
        a.last()
    } else {
        0
    })
    &&& forall|i: int|
        0 <= i < a.len() ==> #[trigger] v.right[a[i]] == (if i + 1 < a.len() {
            a[i + 1]
        } else {
            0
        })
    &&& forall|i: int|
        0 <= i < a.len() ==> #[trigger] v.left[a[i]] == (if i > 0 {
            a[i - 1]
        } else {
            0
        })
}

/// Every node of `x`'s row lies in an active column and is linked into it.
pub open spec fn row_live(v: DlxView, x: int) -> bool {
    forall|y: int|
        #![trigger v.col[y]]
        same_row(v, x, y) ==> v.active.contains(v.col[y] as int) && v.lists[v.col[y] as int].contains(y)
}

/// A row with a node linked into an active column is live.
pub open spec fn live_ok(v: DlxView) -> bool {
    forall|h: int, x: int| v.active.contains(h) && #[trigger] v.lists[h].contains(x) ==> row_live(v, x)
}

/// The structure is well formed.
#[verifier::opaque]
pub open spec fn dlx_wf(v: DlxView) -> bool {
    &&& lens_ok(v)
    &&& headers_ok(v)
    &&& rows_ok(v)
    &&& linked(v, v.lists)
    &&& header_list_ok(v, v.active)
    &&& live_ok(v)
}

/// Column `c` can be covered: the structure is well formed and `c` is active.
#[verifier::opaque]
pub open spec fn coverable(v: DlxView, c: int) -> bool {
    dlx_wf(v) && v.active.contains(c)
}

/// The columns `1..=n`, in order.
pub open spec fn all_columns(n: nat) -> Seq<int> {
    Seq::new(n, |i: int| i + 1)
}

/// The column lists once the first `k` nodes of a row, with columns
/// `cols`, are appended as nodes `base`, `base + 1`, ... to their columns.
pub open spec fn lists_with_row(lists: Seq<Seq<int>>, cols: Seq<usize>, base: int, k: int) -> Seq<Seq<int>>
    decreases k,
{
    if k <= 0 {
        lists
    } else {
        let l = lists_with_row(lists, cols, base, k - 1);
        let h = cols[k - 1] + 1;
        l.update(h, l[h].push(base + k - 1))
    }
}

// ---- The link operations ----

/// Column header `c` taken out of the header list.
pub open spec fn unlink_col(v: DlxView, c: int) -> DlxView {
    let l = v.left[c];
    let r = v.right[c];
    DlxView { right: v.right.update(l as int, r), left: v.left.update(r as int, l), ..v }
}

/// Column header `c` put back between the neighbours it remembers.
pub open spec fn relink_col(v: DlxView, c: int) -> DlxView {
    let l = v.left[c];
    let r = v.right[c];
    DlxView { right: v.right.update(l as int, c as usize), left: v.left.update(r as int, c as usize), ..v }
}

/// Node `j` taken out of its column; its own links are kept.
pub open spec fn remove_node(v: DlxView, j: int) -> DlxView {
    let u = v.up[j];
    let d = v.down[j];
    let h = v.col[j] as int;
    DlxView {
        up: v.up.update(d as int, u),
        down: v.down.update(u as int, d),
        size: v.size.update(h, (v.size[h] - 1) as usize),
        ..v
    }
}

/// Node `j` put back into its column between the neighbours it remembers.
pub open spec fn restore_node(v: DlxView, j: int) -> DlxView {
    let u = v.up[j];
    let d = v.down[j];
    let h = v.col[j] as int;
    DlxView {
        size: v.size.update(h, (v.size[h] + 1) as usize),
        up: v.up.update(d as int, j as usize),
        down: v.down.update(u as int, j as usize),
        ..v
    }
}

/// The first `m` nodes of `ops` taken out, in order.
pub open spec fn remove_upto(v: DlxView, ops: Seq<int>, m: int) -> DlxView
    decreases m,
{
    if m <= 0 {
        v
    } else {
        remove_node(remove_upto(v, ops, m - 1), ops[m - 1])
    }
}

/// The column lists once the first `m` nodes of `ops` are taken out.
pub open spec fn lists_upto(lists: Seq<Seq<int>>, col: Seq<usize>, ops: Seq<int>, m: int) -> Seq<Seq<int>>
    decreases m,
{
    if m <= 0 {
        lists
    } else {
        let l = lists_upto(lists, col, ops, m - 1);
        let x = ops[m - 1];
        let h = col[x] as int;
        l.update(h, l[h].remove(l[h].index_of(x)))
    }
}

/// The nodes of `i`'s row other than `i`, from its right neighbour on.
pub open spec fn row_others(v: DlxView, i: int) -> Seq<int> {
    Seq::new((v.rend[i] - i - 1) as nat, |t: int| i + 1 + t) + Seq::new((i - v.rstart[i]) as nat, |t: int| v.rstart[i] + t)
}

/// The nodes that covering column `c` takes out, for its first `k` rows.
pub open spec fn ops_upto(v: DlxView, c: int, k: int) -> Seq<int>
    decreases k,
{
    if k <= 0 {
        Seq::empty()
    } else {
        ops_upto(v, c, k - 1) + row_others(v, v.lists[c][k - 1])
    }
}

/// The nodes that covering column `c` takes out: for each row of the
/// column, top to bottom, its other nodes, left to right.
pub open spec fn cover_ops(v: DlxView, c: int) -> Seq<int> {
    ops_upto(v, c, v.lists[c].len() as int)
}

/// The structure once column `c` is covered.
#[verifier::opaque]
pub open spec fn covered(v: DlxView, c: int) -> DlxView {
    let ops = cover_ops(v, c);
    let w = remove_upto(unlink_col(v, c), ops, ops.len() as int);
    DlxView {
        lists: lists_upto(v.lists, v.col, ops, ops.len() as int),
        active: v.active.remove(v.active.index_of(c)),
        ..w
    }
}

/// The last `n - m` nodes of the first `n` of `ops` put back, last first.
pub open spec fn restore_from(v: DlxView, ops: Seq<int>, n: int, m: int) -> DlxView
    decreases n - m,
{
    if n <= m {
        v
    } else {
        restore_from(restore_node(v, ops[n - 1]), ops, n - 1, m)
    }
}

/// The structure once column `c` is uncovered: the nodes that covering it
/// took out put back, last first, then its header relinked.
pub open spec fn uncovered(v: DlxView, c: int) -> DlxView {
    let ops = cover_ops(v, c);
    relink_col(restore_from(v, ops, ops.len() as int, 0), c)
}

/// The link and count tables.
pub open spec fn links(v: DlxView) -> (Seq<usize>, Seq<usize>, Seq<usize>, Seq<usize>, Seq<usize>) {
    (v.left, v.right, v.up, v.down, v.size)
}

// ---- Exact covers ----

/// Some node of `x`'s row lies in column `h`.
pub open spec fn row_has_col(v: DlxView, x: int, h: int) -> bool {
    exists|y: int| same_row(v, x, y) && #[trigger] v.col[y] == h
}

/// One of the rows through the nodes `rows` has a node in column `h`.
pub open spec fn covers_col(v: DlxView, rows: Seq<int>, h: int) -> bool {
    exists|i: int| 0 <= i < rows.len() && #[trigger] row_has_col(v, rows[i], h)
}

/// No two of the rows through the nodes `rows` share a column.
pub open spec fn rows_disjoint(v: DlxView, rows: Seq<int>) -> bool {
    forall|i: int, j: int, h: int|
        0 <= i < j < rows.len() && #[trigger] row_has_col(v, rows[i], h) ==> !#[trigger] row_has_col(v, rows[j], h)
}

/// The rows through the nodes `rows` are linked into the structure and
/// cover each of its active columns exactly once, and no other column.
pub open spec fn exact_cover(v: DlxView, rows: Seq<int>) -> bool {
    &&& forall|i: int|
        0 <= i < rows.len() ==> is_data(v, #[trigger] rows[i]) && v.lists[v.col[rows[i]] as int].contains(rows[i])
    &&& rows_disjoint(v, rows)
    &&& forall|h: int| #[trigger] v.active.contains(h) <==> covers_col(v, rows, h)
}

/// The caller's identifiers of the rows through the nodes `rows`.
pub open spec fn row_ids(v: DlxView, rows: Seq<int>) -> Seq<usize> {
    Seq::new(rows.len(), |i: int| v.row_id[rows[i]])
}

/// `s` is `prefix` followed by the identifiers of the rows of an exact cover.
pub open spec fn is_solution(v: DlxView, prefix: Seq<usize>, s: Seq<usize>) -> bool {
    exists|rows: Seq<int>| #[trigger] exact_cover(v, rows) && s == prefix + row_ids(v, rows)
}

} // verus!
