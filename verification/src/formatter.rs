//! Drawing a solution as text: the grid's borders and cut edges, and the
//! number of the piece of every cell.
use vstd::prelude::*;
use crate::ascii;
use crate::grid::Grid;
use crate::solver::validation::{cell_pieces, cp, pieces_in_grid};
use crate::types::{EdgeState, Piece};
pub use crate::parse_output::format_parse_output;

verus! {

// ── The drawing, as bytes ────────────────────────────────────────────────────

/// Cell (r, c) is a cell of the grid that exists.
pub open spec fn exists_at(g: Grid, r: int, c: int) -> bool {
    0 <= r < g.rows && 0 <= c < g.cols && g.cell_exists@[g.cell_at(r, c)]
}

/// The corner drawn at grid point (vi, vj): `+` when one of the four cells
/// around it exists.
pub open spec fn corner(g: Grid, vi: int, vj: int) -> u8 {
    if exists_at(g, vi - 1, vj - 1) || exists_at(g, vi - 1, vj) || exists_at(g, vi, vj - 1) || exists_at(g, vi, vj) {
        ascii::PLUS
    } else {
        ascii::SPACE
    }
}

/// `n` spaces.
pub open spec fn spaces(n: int) -> Seq<u8> {
    Seq::new(n as nat, |i: int| ascii::SPACE)
}

/// The segment drawn above cell (vr, c): dashes on the border of the
/// existing cells and on cut edges between two of them, spaces elsewhere.
pub open spec fn h_segment(g: Grid, edges: Seq<EdgeState>, vr: int, c: int) -> Seq<u8> {
    let above = exists_at(g, vr - 1, c);
    let below = exists_at(g, vr, c);
    if (!above && !below) || (above && below && edges[g.h_edge_at(vr - 1, c)] != EdgeState::Cut) {
        spaces(3)
    } else {
        seq![ascii::DASH, ascii::DASH, ascii::DASH]
    }
}

/// The first `k` corners and segments of the border line above row `vr`.
pub open spec fn border_prefix(g: Grid, edges: Seq<EdgeState>, vr: int, k: int) -> Seq<u8>
    decreases k,
{
    if k <= 0 {
        Seq::empty()
    } else {
        border_prefix(g, edges, vr, k - 1).push(corner(g, vr, k - 1)) + h_segment(g, edges, vr, k - 1)
    }
}

/// The border line above row `vr` (below the last row when `vr` is `rows`).
pub open spec fn border_line(g: Grid, edges: Seq<EdgeState>, vr: int) -> Seq<u8> {
    border_prefix(g, edges, vr, g.cols as int).push(corner(g, vr, g.cols as int))
}

/// The separator drawn between cells (r, lc) and (r, lc + 1): a bar on the
/// border of the existing cells and on a cut edge between two of them.
pub open spec fn v_sep(g: Grid, edges: Seq<EdgeState>, r: int, lc: int) -> u8 {
    let left = exists_at(g, r, lc);
    let right = exists_at(g, r, lc + 1);
    if (!left && !right) || (left && right && edges[g.v_edge_at(r, lc)] != EdgeState::Cut) {
        ascii::SPACE
    } else {
        ascii::PIPE
    }
}

/// The decimal digits of `n`.
pub open spec fn decimal(n: nat) -> Seq<u8>
    decreases n,
{
    if n < 10 {
        seq![(48 + n) as u8]
    } else {
        decimal(n / 10).push((48 + n % 10) as u8)
    }
}

/// `n` in three columns: centred, an odd space going to the right.
pub open spec fn centred(n: nat) -> Seq<u8> {
    let d = decimal(n);
    let pad = 3 - d.len();
    spaces(pad / 2) + d + spaces(pad - pad / 2)
}

/// The three columns of cell (r, c): its label, or spaces for a missing cell.
pub open spec fn cell_text(g: Grid, labels: Seq<usize>, r: int, c: int) -> Seq<u8> {
    if exists_at(g, r, c) {
        centred(labels[g.cell_at(r, c)] as nat)
    } else {
        spaces(3)
    }
}

/// The left border of cell (r, c): the grid's left border for the first
/// column, the separator from the cell on its left otherwise.
pub open spec fn left_of(g: Grid, edges: Seq<EdgeState>, r: int, c: int) -> u8 {
    if c == 0 {
        if exists_at(g, r, 0) {
            ascii::PIPE
        } else {
            ascii::SPACE
        }
    } else {
        v_sep(g, edges, r, c - 1)
    }
}

/// The first `k` cells of the line of row `r`.
pub open spec fn cell_prefix(g: Grid, edges: Seq<EdgeState>, labels: Seq<usize>, r: int, k: int) -> Seq<u8>
    decreases k,
{
    if k <= 0 {
        Seq::empty()
    } else {
        cell_prefix(g, edges, labels, r, k - 1).push(left_of(g, edges, r, k - 1)) + cell_text(g, labels, r, k - 1)
    }
}

/// The line of row `r`.
pub open spec fn cell_line(g: Grid, edges: Seq<EdgeState>, labels: Seq<usize>, r: int) -> Seq<u8> {
    cell_prefix(g, edges, labels, r, g.cols as int).push(
        if exists_at(g, r, g.cols - 1) {
            ascii::PIPE
        } else {
            ascii::SPACE
        },
    )
}

/// The drawing of the first `k` rows: the top border, then for each row its
/// line and the border below it, each line ended by a newline.
pub open spec fn drawing_prefix(g: Grid, edges: Seq<EdgeState>, labels: Seq<usize>, k: int) -> Seq<u8>
    decreases k,
{
    if k <= 0 {
        Seq::empty()
    } else {
        let top = if k == 1 {
            border_line(g, edges, 0).push(ascii::NL)
        } else {
            Seq::empty()
        };
        drawing_prefix(g, edges, labels, k - 1) + top + cell_line(g, edges, labels, k - 1).push(ascii::NL)
            + border_line(g, edges, k).push(ascii::NL)
    }
}

/// The label of each cell: one more than the index of its piece, or 0.
pub open spec fn piece_labels(g: Grid, pieces: Seq<Piece>) -> Seq<usize> {
    Seq::new(
        g.n_cells() as nat,
        |c: int|
            if cp(pieces, c) == usize::MAX {
                0usize
            } else {
                (cp(pieces, c) + 1) as usize
            },
    )
}

/// The drawing of a solution.
pub open spec fn solution_drawing(g: Grid, edges: Seq<EdgeState>, pieces: Seq<Piece>) -> Seq<u8> {
    drawing_prefix(g, edges, piece_labels(g, pieces), g.rows as int)
}

/// Every byte is ASCII.
pub open spec fn all_ascii(s: Seq<u8>) -> bool {
    forall|i: int| 0 <= i < s.len() ==> #[trigger] s[i] < 128
}

/// The characters of ASCII bytes.
pub open spec fn ascii_chars(bytes: Seq<u8>) -> Seq<char> {
    Seq::new(bytes.len(), |i: int| bytes[i] as char)
}

// ── Building the drawing ─────────────────────────────────────────────────────

/// Calls `String::from_utf8` (std). Its documentation: the bytes become the
/// string when they are valid UTF-8. ASCII bytes are valid UTF-8, and each
/// stands for the character with its code.
#[verifier::external_body]
fn ascii_string(bytes: Vec<u8>) -> (s: String)
    requires
        forall|i: int| 0 <= i < bytes@.len() ==> #[trigger] bytes@[i] < 128,
    ensures
        s@ == ascii_chars(bytes@),
{
    match String::from_utf8(bytes) {
        Ok(s) => s,
        Err(_) => String::new(),
    }
}

/// Cell (r, c), given as numbers that may lie outside the grid, exists.
fn exists_at_exec(g: &Grid, r: usize, c: usize) -> (b: bool)
    requires
        g.wf(),
    ensures
        b == exists_at(*g, r as int, c as int),
{
    if r < g.rows && c < g.cols {
        proof {
            g.lemma_sizes();
            crate::grid::lemma_index_in_box(r as int, c as int, g.rows as int, g.cols as int);
        }
        g.cell_exists[g.cell_id(r, c)]
    } else {
        false
    }
}

/// Cell (r - 1, c) exists; there is none above row 0.
fn exists_above(g: &Grid, r: usize, c: usize) -> (b: bool)
    requires
        g.wf(),
    ensures
        b == exists_at(*g, r - 1, c as int),
{
    if r == 0 {
        false
    } else {
        exists_at_exec(g, r - 1, c)
    }
}

/// Cell (r, c - 1) exists; there is none left of column 0.
fn exists_left(g: &Grid, r: usize, c: usize) -> (b: bool)
    requires
        g.wf(),
    ensures
        b == exists_at(*g, r as int, c - 1),
{
    if c == 0 {
        false
    } else {
        exists_at_exec(g, r, c - 1)
    }
}

fn corner_exec(g: &Grid, vi: usize, vj: usize) -> (b: u8)
    requires
        g.wf(),
    ensures
        b == corner(*g, vi as int, vj as int),
{
    let a = if vi == 0 {
        false
    } else {
        exists_left(g, vi - 1, vj)
    };
    if a || exists_above(g, vi, vj) || exists_left(g, vi, vj) || exists_at_exec(g, vi, vj) {
        ascii::PLUS
    } else {
        ascii::SPACE
    }
}

/// Appends `n` copies of `b`.
fn push_n(out: &mut Vec<u8>, b: u8, n: usize)
    requires
        b < 128,
    ensures
        final(out)@ == old(out)@ + Seq::new(n as nat, |i: int| b),
        all_ascii(old(out)@) ==> all_ascii(final(out)@),
{
    let ghost start = out@;
    let mut i: usize = 0;
    while i < n
        invariant
            b < 128,
            i <= n,
            out@ == start + Seq::new(i as nat, |j: int| b),
            all_ascii(start) ==> all_ascii(out@),
        decreases n - i,
    {
        out.push(b);
        i = i + 1;
        proof {
            assert(out@ =~= start + Seq::new(i as nat, |j: int| b));
        }
    }
}

/// The decimal digits of a number below 1000.
fn decimal_exec(n: usize) -> (d: Vec<u8>)
    requires
        n < 1000,
    ensures
        d@ == decimal(n as nat),
        1 <= d@.len() <= 3,
        all_ascii(d@),
{
    let mut d: Vec<u8> = Vec::new();
    if n < 10 {
        d.push((48 + n) as u8);
        proof {
            assert(d@ =~= decimal(n as nat));
        }
    } else if n < 100 {
        d.push((48 + n / 10) as u8);
        d.push((48 + n % 10) as u8);
        proof {
            assert(decimal((n / 10) as nat) == seq![(48 + n / 10) as u8]);
            assert(d@ =~= decimal(n as nat));
        }
    } else {
        d.push((48 + n / 100) as u8);
        d.push((48 + (n / 10) % 10) as u8);
        d.push((48 + n % 10) as u8);
        proof {
            let m = (n / 10) as nat;
            assert(m / 10 == n / 100);
            assert(decimal(m / 10) == seq![(48 + n / 100) as u8]);
            assert(decimal(m) =~= seq![(48 + n / 100) as u8, (48 + m % 10) as u8]);
            assert(d@ =~= decimal(n as nat));
        }
    }
    d
}

/// Appends the border line above row `vr`.
fn push_border(g: &Grid, edges: &[EdgeState], out: &mut Vec<u8>, vr: usize)
    requires
        g.wf(),
        vr <= g.rows,
        edges@.len() >= g.n_edges(),
    ensures
        final(out)@ == old(out)@ + border_line(*g, edges@, vr as int),
        all_ascii(old(out)@) ==> all_ascii(final(out)@),
{
    let ghost start = out@;
    let mut c: usize = 0;
    while c < g.cols
        invariant
            g.wf(),
            vr <= g.rows,
            edges@.len() >= g.n_edges(),
            c <= g.cols,
            all_ascii(start) ==> all_ascii(out@),
            out@ == start + border_prefix(*g, edges@, vr as int, c as int),
        decreases g.cols - c,
    {
        let ghost before = out@;
        out.push(corner_exec(g, vr, c));
        let above = exists_above(g, vr, c);
        let below = exists_at_exec(g, vr, c);
        let blank = if !above && !below {
            true
        } else if above && below {
            proof {
                g.lemma_sizes();
            }
            let e = g.h_edge(vr - 1, c);
            edges[e] != EdgeState::Cut
        } else {
            false
        };
        if blank {
            push_n(out, ascii::SPACE, 3);
        } else {
            push_n(out, ascii::DASH, 3);
        }
        proof {
            let seg = h_segment(*g, edges@, vr as int, c as int);
            assert(Seq::new(3, |i: int| ascii::SPACE) =~= spaces(3));
            assert(Seq::new(3, |i: int| ascii::DASH) =~= seq![ascii::DASH, ascii::DASH, ascii::DASH]);
            assert(out@ =~= before.push(corner(*g, vr as int, c as int)) + seg);
            assert(border_prefix(*g, edges@, vr as int, c + 1) == border_prefix(*g, edges@, vr as int, c as int).push(
                corner(*g, vr as int, c as int),
            ) + seg);
            assert(out@ =~= start + border_prefix(*g, edges@, vr as int, c + 1));
        }
        c = c + 1;
    }
    out.push(corner_exec(g, vr, g.cols));
    proof {
        assert(out@ =~= start + border_line(*g, edges@, vr as int));
    }
}

/// The left border of cell (r, c) (see `left_of`).
fn left_of_exec(g: &Grid, edges: &[EdgeState], r: usize, c: usize) -> (b: u8)
    requires
        g.wf(),
        r < g.rows,
        c < g.cols,
        edges@.len() >= g.n_edges(),
    ensures
        b == left_of(*g, edges@, r as int, c as int),
        b < 128,
{
    if c == 0 {
        if exists_at_exec(g, r, 0) {
            ascii::PIPE
        } else {
            ascii::SPACE
        }
    } else {
        let left = exists_at_exec(g, r, c - 1);
        let right = exists_at_exec(g, r, c);
        let blank = if !left && !right {
            true
        } else if left && right {
            proof {
                g.lemma_sizes();
            }
            let e = g.v_edge(r, c - 1);
            edges[e] != EdgeState::Cut
        } else {
            false
        };
        if blank {
            ascii::SPACE
        } else {
            ascii::PIPE
        }
    }
}

/// Appends the three columns of cell (r, c) (see `cell_text`).
fn push_cell_text(g: &Grid, labels: &Vec<usize>, out: &mut Vec<u8>, r: usize, c: usize)
    requires
        g.wf(),
        r < g.rows,
        c < g.cols,
        labels@.len() == g.n_cells(),
        forall|x: int| 0 <= x < g.n_cells() ==> #[trigger] labels@[x] < 1000,
    ensures
        final(out)@ == old(out)@ + cell_text(*g, labels@, r as int, c as int),
        all_ascii(old(out)@) ==> all_ascii(final(out)@),
{
    let ghost start = out@;
    if exists_at_exec(g, r, c) {
        proof {
            g.lemma_sizes();
            crate::grid::lemma_index_in_box(r as int, c as int, g.rows as int, g.cols as int);
        }
        let label = labels[g.cell_id(r, c)];
        let d = decimal_exec(label);
        let pad = 3 - d.len();
        let left = pad / 2;
        push_n(out, ascii::SPACE, left);
        let mut k: usize = 0;
        let ghost mid = out@;
        while k < d.len()
            invariant
                k <= d@.len(),
                out@ == mid + d@.take(k as int),
                all_ascii(d@),
                all_ascii(start) ==> all_ascii(out@),
            decreases d@.len() - k,
        {
            out.push(d[k]);
            k = k + 1;
            proof {
                assert(out@ =~= mid + d@.take(k as int));
            }
        }
        push_n(out, ascii::SPACE, pad - left);
        proof {
            assert(d@.take(d@.len() as int) =~= d@);
            assert(out@ =~= start + cell_text(*g, labels@, r as int, c as int));
        }
    } else {
        push_n(out, ascii::SPACE, 3);
        proof {
            assert(out@ =~= start + cell_text(*g, labels@, r as int, c as int));
        }
    }
}

/// Appends the line of row `r`.
fn push_cell_row(g: &Grid, edges: &[EdgeState], labels: &Vec<usize>, out: &mut Vec<u8>, r: usize)
    requires
        g.wf(),
        r < g.rows,
        g.cols > 0,
        edges@.len() >= g.n_edges(),
        labels@.len() == g.n_cells(),
        forall|c: int| 0 <= c < g.n_cells() ==> #[trigger] labels@[c] < 1000,
    ensures
        final(out)@ == old(out)@ + cell_line(*g, edges@, labels@, r as int),
        all_ascii(old(out)@) ==> all_ascii(final(out)@),
{
    let ghost start = out@;
    let mut c: usize = 0;
    while c < g.cols
        invariant
            g.wf(),
            r < g.rows,
            all_ascii(start) ==> all_ascii(out@),
            edges@.len() >= g.n_edges(),
            labels@.len() == g.n_cells(),
            forall|x: int| 0 <= x < g.n_cells() ==> #[trigger] labels@[x] < 1000,
            c <= g.cols,
            out@ == start + cell_prefix(*g, edges@, labels@, r as int, c as int),
        decreases g.cols - c,
    {
        let sep = left_of_exec(g, edges, r, c);
        out.push(sep);
        push_cell_text(g, labels, out, r, c);
        proof {
            assert(out@ =~= start + cell_prefix(*g, edges@, labels@, r as int, c + 1));
        }
        c = c + 1;
    }
    let right = if exists_at_exec(g, r, g.cols - 1) {
        ascii::PIPE
    } else {
        ascii::SPACE
    };
    out.push(right);
    proof {
        assert(out@ =~= start + cell_line(*g, edges@, labels@, r as int));
    }
}

/// Draws a solution: the grid's border and cut edges, and in every existing
/// cell the number of its piece (counted from 1; 0 for a cell in no piece).
pub fn format_solution(grid: &Grid, edges: &[EdgeState], pieces: &[Piece]) -> (s: String)
    requires
        grid.wf(),
        grid.rows == 0 || grid.cols > 0,
        edges@.len() >= grid.n_edges(),
        pieces_in_grid(pieces@, *grid),
        pieces@.len() < 1000,
    ensures
        s@ == ascii_chars(solution_drawing(*grid, edges@, pieces@)),
{
    proof {
        grid.lemma_sizes();
    }
    let table = cell_pieces(grid, pieces);
    let n = grid.num_cells();
    proof {
        assert forall|x: int| 0 <= x < n implies #[trigger] cp(pieces@, x) == usize::MAX || cp(pieces@, x) < pieces@.len() by {
            crate::solver::validation::lemma_piece_of_range(pieces@, x, pieces@.len() as int);
        }
    }
    let mut labels: Vec<usize> = Vec::new();
    let mut c: usize = 0;
    while c < n
        invariant
            n == grid.n_cells(),
            table@.len() == n,
            forall|x: int| 0 <= x < n ==> #[trigger] table@[x] == cp(pieces@, x),
            forall|x: int| 0 <= x < n ==> #[trigger] cp(pieces@, x) == usize::MAX || cp(pieces@, x) < pieces@.len(),
            pieces@.len() < 1000,
            c <= n,
            labels@ == piece_labels(*grid, pieces@).take(c as int),
        decreases n - c,
    {
        let t = table[c];
        let label = if t == usize::MAX {
            0
        } else {
            t + 1
        };
        labels.push(label);
        c = c + 1;
        proof {
            assert(labels@ =~= piece_labels(*grid, pieces@).take(c as int));
        }
    }
    proof {
        assert(labels@ =~= piece_labels(*grid, pieces@));
        assert forall|x: int| 0 <= x < grid.n_cells() implies #[trigger] labels@[x] < 1000 by {
            assert(cp(pieces@, x) == usize::MAX || cp(pieces@, x) < pieces@.len());
        }
    }
    let mut out: Vec<u8> = Vec::new();
    let mut r: usize = 0;
    while r < grid.rows
        invariant
            grid.wf(),
            grid.rows == 0 || grid.cols > 0,
            edges@.len() >= grid.n_edges(),
            labels@ == piece_labels(*grid, pieces@),
            forall|x: int| 0 <= x < grid.n_cells() ==> #[trigger] labels@[x] < 1000,
            r <= grid.rows,
            out@ == drawing_prefix(*grid, edges@, labels@, r as int),
            all_ascii(out@),
        decreases grid.rows - r,
    {
        let ghost before = out@;
        if r == 0 {
            push_border(grid, edges, &mut out, 0);
            out.push(ascii::NL);
        }
        let ghost mid = out@;
        push_cell_row(grid, edges, &labels, &mut out, r);
        out.push(ascii::NL);
        push_border(grid, edges, &mut out, r + 1);
        out.push(ascii::NL);
        proof {
            let top = if r == 0 {
                border_line(*grid, edges@, 0).push(ascii::NL)
            } else {
                Seq::empty()
            };
            assert(mid =~= before + top);
            assert(out@ =~= drawing_prefix(*grid, edges@, labels@, r + 1));
        }
        r = r + 1;
    }
    ascii_string(out)
}

} // verus!
