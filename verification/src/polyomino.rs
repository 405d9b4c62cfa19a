use vstd::prelude::*;
use vstd::relations::{sorted_by, total_ordering};
use vstd::seq_lib::{lemma_sorted_unique, to_multiset_build, to_multiset_insert};
use crate::grid::Grid;
use crate::types::{CellClue, Piece, Puzzle, Shape};
use vstd::string::*;
use crate::ascii;

verus! {

/// A quarter-turn rotation.
#[derive(Clone, Copy, Debug, PartialEq, Eq, Structural)]
pub enum Rotation {
    R0,
    R90,
    R180,
    R270,
}

impl Rotation {
    pub open spec fn spec_transform(self, r: int, c: int) -> (int, int) {
        match self {
            Rotation::R0 => (r, c),
            Rotation::R90 => (c, -r),
            Rotation::R180 => (-r, -c),
            Rotation::R270 => (-c, r),
        }
    }

    pub open spec fn rot_index(self) -> usize {
        match self {
            Rotation::R0 => 0,
            Rotation::R90 => 1,
            Rotation::R180 => 2,
            Rotation::R270 => 3,
        }
    }

    /// The rotation by `k` quarter turns (k < 4).
    pub open spec fn of_index(k: int) -> Rotation {
        if k == 0 {
            Rotation::R0
        } else if k == 1 {
            Rotation::R90
        } else if k == 2 {
            Rotation::R180
        } else {
            Rotation::R270
        }
    }

    pub fn all() -> (a: [Self; 4])
        ensures
            a@ == seq![Rotation::R0, Rotation::R90, Rotation::R180, Rotation::R270],
    {
        [Rotation::R0, Rotation::R90, Rotation::R180, Rotation::R270]
    }

    pub fn transform(self, r: i32, c: i32) -> (p: (i32, i32))
        requires
            r > i32::MIN,
            c > i32::MIN,
        ensures
            p.0 == self.spec_transform(r as int, c as int).0,
            p.1 == self.spec_transform(r as int, c as int).1,
    {
        match self {
            Rotation::R0 => (r, c),
            Rotation::R90 => (c, -r),
            Rotation::R180 => (-r, -c),
            Rotation::R270 => (-c, r),
        }
    }

    pub fn index(self) -> (i: usize)
        ensures
            i == self.rot_index(),
    {
        match self {
            Rotation::R0 => 0,
            Rotation::R90 => 1,
            Rotation::R180 => 2,
            Rotation::R270 => 3,
        }
    }
}

// ── Cell sequences ───────────────────────────────────────────────────────────

/// Row-major order of relative cells.
pub open spec fn cell_le(a: (i32, i32), b: (i32, i32)) -> bool {
    a.0 < b.0 || (a.0 == b.0 && a.1 <= b.1)
}

pub open spec fn cell_leq() -> spec_fn((i32, i32), (i32, i32)) -> bool {
    |a: (i32, i32), b: (i32, i32)| cell_le(a, b)
}

pub proof fn lemma_cell_leq_total()
    ensures
        total_ordering(cell_leq()),
{
}

/// Smallest row (0 for no cells).
pub open spec fn min_row(s: Seq<(i32, i32)>) -> int
    decreases s.len(),
{
    if s.len() == 0 {
        0
    } else if s.len() == 1 {
        s[0].0 as int
    } else {
        let m = min_row(s.drop_last());
        if (s.last().0 as int) < m {
            s.last().0 as int
        } else {
            m
        }
    }
}

/// Smallest column (0 for no cells).
pub open spec fn min_col(s: Seq<(i32, i32)>) -> int
    decreases s.len(),
{
    if s.len() == 0 {
        0
    } else if s.len() == 1 {
        s[0].1 as int
    } else {
        let m = min_col(s.drop_last());
        if (s.last().1 as int) < m {
            s.last().1 as int
        } else {
            m
        }
    }
}

/// Largest row (0 for no cells).
pub open spec fn max_row(s: Seq<(i32, i32)>) -> int
    decreases s.len(),
{
    if s.len() == 0 {
        0
    } else if s.len() == 1 {
        s[0].0 as int
    } else {
        let m = max_row(s.drop_last());
        if (s.last().0 as int) > m {
            s.last().0 as int
        } else {
            m
        }
    }
}

/// Largest column (0 for no cells).
pub open spec fn max_col(s: Seq<(i32, i32)>) -> int
    decreases s.len(),
{
    if s.len() == 0 {
        0
    } else if s.len() == 1 {
        s[0].1 as int
    } else {
        let m = max_col(s.drop_last());
        if (s.last().1 as int) > m {
            s.last().1 as int
        } else {
            m
        }
    }
}

/// The minima and maxima bound every cell and are attained.
pub proof fn lemma_extrema(s: Seq<(i32, i32)>)
    ensures
        forall|i: int|
            0 <= i < s.len() ==> min_row(s) <= #[trigger] s[i].0 <= max_row(s) && min_col(s)
                <= s[i].1 <= max_col(s),
        s.len() > 0 ==> exists|i: int| 0 <= i < s.len() && #[trigger] s[i].0 == min_row(s),
        s.len() > 0 ==> exists|i: int| 0 <= i < s.len() && #[trigger] s[i].1 == min_col(s),
        s.len() > 0 ==> exists|i: int| 0 <= i < s.len() && #[trigger] s[i].0 == max_row(s),
        s.len() > 0 ==> exists|i: int| 0 <= i < s.len() && #[trigger] s[i].1 == max_col(s),
    decreases s.len(),
{
    if s.len() > 1 {
        let t = s.drop_last();
        lemma_extrema(t);
        assert forall|i: int| 0 <= i < t.len() implies #[trigger] s[i] == t[i] by {}
        if (s.last().0 as int) >= min_row(t) {
            let k = choose|i: int| 0 <= i < t.len() && #[trigger] t[i].0 == min_row(t);
            assert(s[k].0 == min_row(s));
        }
        if (s.last().1 as int) >= min_col(t) {
            let k = choose|i: int| 0 <= i < t.len() && #[trigger] t[i].1 == min_col(t);
            assert(s[k].1 == min_col(s));
        }
        if (s.last().0 as int) <= max_row(t) {
            let k = choose|i: int| 0 <= i < t.len() && #[trigger] t[i].0 == max_row(t);
            assert(s[k].0 == max_row(s));
        }
        if (s.last().1 as int) <= max_col(t) {
            let k = choose|i: int| 0 <= i < t.len() && #[trigger] t[i].1 == max_col(t);
            assert(s[k].1 == max_col(s));
        }
        assert(s[s.len() - 1] == s.last());
    } else if s.len() == 1 {
        assert(s[0].0 == min_row(s));
        assert(s[0].1 == min_col(s));
        assert(s[0].0 == max_row(s));
        assert(s[0].1 == max_col(s));
    }
}

/// The row and column spreads of the cells stay below `i32::MAX`,
/// so shifting them to the origin and measuring them does not overflow.
pub open spec fn spread_ok(s: Seq<(i32, i32)>) -> bool {
    forall|i: int, j: int|
        #![trigger s[i], s[j]]
        0 <= i < s.len() && 0 <= j < s.len() ==> s[i].0 - s[j].0 < i32::MAX && s[i].1 - s[j].1
            < i32::MAX
}

/// No coordinate is `i32::MIN`, so coordinates can be negated.
pub open spec fn negatable(s: Seq<(i32, i32)>) -> bool {
    forall|i: int| 0 <= i < s.len() ==> #[trigger] s[i].0 > i32::MIN && s[i].1 > i32::MIN
}

/// The cells moved by (-dr, -dc).
pub open spec fn shifted(s: Seq<(i32, i32)>, dr: int, dc: int) -> Seq<(i32, i32)> {
    Seq::new(s.len(), |i: int| ((s[i].0 - dr) as i32, (s[i].1 - dc) as i32))
}

/// The cells moved so that the smallest row and column are 0, in row-major order.
pub open spec fn normalized(s: Seq<(i32, i32)>) -> Seq<(i32, i32)> {
    shifted(s, min_row(s), min_col(s)).sort_by(cell_leq())
}

/// View of a shape: (height, width, cells).
pub type ShapeView = (i32, i32, Seq<(i32, i32)>);

impl View for Shape {
    type V = ShapeView;

    open spec fn view(&self) -> ShapeView {
        (self.height, self.width, self.cells@)
    }
}

/// The shape formed by some cells: normalized cells and their bounding box.
pub open spec fn shape_of(s: Seq<(i32, i32)>) -> ShapeView {
    let n = normalized(s);
    if s.len() == 0 {
        (0, 0, seq![])
    } else {
        ((max_row(n) + 1) as i32, (max_col(n) + 1) as i32, n)
    }
}

/// Lexicographic order on cell sequences, from position `i` on.
pub open spec fn lex_lt(a: Seq<(i32, i32)>, b: Seq<(i32, i32)>, i: int) -> bool
    decreases a.len() - i,
{
    if i < 0 || i >= a.len() {
        0 <= i < b.len()
    } else if i >= b.len() {
        false
    } else if a[i].0 < b[i].0 || (a[i].0 == b[i].0 && a[i].1 < b[i].1) {
        true
    } else if a[i] == b[i] {
        lex_lt(a, b, i + 1)
    } else {
        false
    }
}

/// The order of shapes: by height, then width, then cells lexicographically.
pub open spec fn shape_lt(a: ShapeView, b: ShapeView) -> bool {
    a.0 < b.0 || (a.0 == b.0 && (a.1 < b.1 || (a.1 == b.1 && lex_lt(a.2, b.2, 0))))
}

/// The cells rotated by `rot` and, when `flip`, mirrored left-right afterwards.
pub open spec fn rotated(s: Seq<(i32, i32)>, rot: Rotation, flip: bool) -> Seq<(i32, i32)> {
    Seq::new(
        s.len(),
        |i: int|
            {
                let (nr, nc) = rot.spec_transform(s[i].0 as int, s[i].1 as int);
                if flip {
                    (nr as i32, (-nc) as i32)
                } else {
                    (nr as i32, nc as i32)
                }
            },
    )
}

/// The `k`-th of the eight orientations of a shape (rotation k / 2, mirrored when k is odd).
pub open spec fn orientation(s: ShapeView, k: int) -> ShapeView {
    shape_of(rotated(s.2, Rotation::of_index(k / 2), k % 2 == 1))
}

/// The smallest of `s` and its first `k` orientations, keeping the earlier one on ties.
pub open spec fn canonical_upto(s: ShapeView, k: int) -> ShapeView
    decreases k,
{
    if k <= 0 {
        s
    } else {
        let b = canonical_upto(s, k - 1);
        let c = orientation(s, k - 1);
        if shape_lt(c, b) {
            c
        } else {
            b
        }
    }
}

/// The canonical form: the smallest of the shape and its eight orientations.
pub open spec fn canonical_spec(s: ShapeView) -> ShapeView {
    canonical_upto(s, 8)
}

/// Rotating and mirroring keeps the spread of the cells.
pub proof fn lemma_rotated_spread(s: Seq<(i32, i32)>, rot: Rotation, flip: bool)
    requires
        spread_ok(s),
        negatable(s),
    ensures
        spread_ok(rotated(s, rot, flip)),
        rotated(s, rot, flip).len() == s.len(),
{
    let t = rotated(s, rot, flip);
    assert forall|i: int, j: int| 0 <= i < t.len() && 0 <= j < t.len() implies #[trigger] t[i].0
        - #[trigger] t[j].0 < i32::MAX && t[i].1 - t[j].1 < i32::MAX by {
        assert(t[i] == t[i] && t[j] == t[j]);
        assert(s[i].0 - s[j].0 < i32::MAX && s[i].1 - s[j].1 < i32::MAX);
        assert(s[j].0 - s[i].0 < i32::MAX && s[j].1 - s[i].1 < i32::MAX);
    }
}

// ── Executable shape operations ──────────────────────────────────────────────

/// Insertion sort of cells into row-major order.
fn sort_cells(v: Vec<(i32, i32)>) -> (out: Vec<(i32, i32)>)
    ensures
        out@ == v@.sort_by(cell_leq()),
{
    let mut out: Vec<(i32, i32)> = Vec::new();
    let mut i: usize = 0;
    let ghost leq = cell_leq();
    proof {
        assert(v@.take(0) =~= out@);
    }
    while i < v.len()
        invariant
            i <= v@.len(),
            leq == cell_leq(),
            sorted_by(out@, leq),
            out@.to_multiset() == v@.take(i as int).to_multiset(),
        decreases v@.len() - i,
    {
        let x = v[i];
        let mut p: usize = 0;
        while p < out.len() && (out[p].0 < x.0 || (out[p].0 == x.0 && out[p].1 <= x.1))
            invariant
                p <= out@.len(),
                forall|k: int| 0 <= k < p ==> cell_le(#[trigger] out@[k], x),
            decreases out@.len() - p,
        {
            p = p + 1;
        }
        let ghost before = out@;
        out.insert(p, x);
        proof {
            assert forall|a: int, b: int| 0 <= a < b < out@.len() implies #[trigger] leq(
                out@[a],
                out@[b],
            ) by {
                if b < p {
                    assert(leq(before[a], before[b]));
                } else if b == p {
                } else if a < p {
                    assert(cell_le(before[a], x));
                    assert(leq(before[p as int], before[b - 1]) || p == b - 1);
                } else if a == p {
                    assert(leq(before[p as int], before[b - 1]) || p == b - 1);
                } else {
                    assert(leq(before[a - 1], before[b - 1]));
                }
            }
            to_multiset_insert(before, p as int, x);
            assert(v@.take(i + 1) =~= v@.take(i as int).push(x));
            to_multiset_build(v@.take(i as int), x);
        }
        i = i + 1;
    }
    proof {
        assert(v@.take(v@.len() as int) =~= v@);
        lemma_cell_leq_total();
        v@.lemma_sort_by_ensures(leq);
        lemma_sorted_unique(out@, v@.sort_by(leq), leq);
    }
    out
}

/// Smallest row and column of the cells (0, 0 for none).
fn min_row_col(cells: &[(i32, i32)]) -> (m: (i32, i32))
    ensures
        m.0 == min_row(cells@),
        m.1 == min_col(cells@),
{
    if cells.len() == 0 {
        return (0, 0);
    }
    let mut mr = cells[0].0;
    let mut mc = cells[0].1;
    let mut i: usize = 1;
    while i < cells.len()
        invariant
            1 <= i <= cells@.len(),
            mr == min_row(cells@.take(i as int)),
            mc == min_col(cells@.take(i as int)),
        decreases cells@.len() - i,
    {
        proof {
            assert(cells@.take(i + 1).drop_last() =~= cells@.take(i as int));
        }
        if cells[i].0 < mr {
            mr = cells[i].0;
        }
        if cells[i].1 < mc {
            mc = cells[i].1;
        }
        i = i + 1;
    }
    proof {
        assert(cells@.take(cells@.len() as int) =~= cells@);
    }
    (mr, mc)
}

/// Largest row and column of the cells (0, 0 for none).
fn max_row_col(cells: &[(i32, i32)]) -> (m: (i32, i32))
    ensures
        m.0 == max_row(cells@),
        m.1 == max_col(cells@),
{
    if cells.len() == 0 {
        return (0, 0);
    }
    let mut mr = cells[0].0;
    let mut mc = cells[0].1;
    let mut i: usize = 1;
    while i < cells.len()
        invariant
            1 <= i <= cells@.len(),
            mr == max_row(cells@.take(i as int)),
            mc == max_col(cells@.take(i as int)),
        decreases cells@.len() - i,
    {
        proof {
            assert(cells@.take(i + 1).drop_last() =~= cells@.take(i as int));
        }
        if cells[i].0 > mr {
            mr = cells[i].0;
        }
        if cells[i].1 > mc {
            mc = cells[i].1;
        }
        i = i + 1;
    }
    proof {
        assert(cells@.take(cells@.len() as int) =~= cells@);
    }
    (mr, mc)
}

/// The cells moved so that their smallest row and column are 0, sorted.
pub fn normalize(cells: &[(i32, i32)]) -> (out: Vec<(i32, i32)>)
    requires
        spread_ok(cells@),
    ensures
        out@ == normalized(cells@),
{
    if cells.len() == 0 {
        let v: Vec<(i32, i32)> = Vec::new();
        proof {
            let t = shifted(cells@, min_row(cells@), min_col(cells@));
            lemma_cell_leq_total();
            t.lemma_sort_by_ensures(cell_leq());
            vstd::seq_lib::to_multiset_len(t);
            vstd::seq_lib::to_multiset_len(t.sort_by(cell_leq()));
            assert(normalized(cells@) =~= v@);
        }
        return v;
    }
    let (min_r, min_c) = min_row_col(cells);
    proof {
        lemma_extrema(cells@);
    }
    let mut out: Vec<(i32, i32)> = Vec::new();
    let mut i: usize = 0;
    while i < cells.len()
        invariant
            i <= cells@.len(),
            spread_ok(cells@),
            min_r == min_row(cells@),
            min_c == min_col(cells@),
            forall|k: int|
                0 <= k < cells@.len() ==> min_row(cells@) <= #[trigger] cells@[k].0 && min_col(
                    cells@,
                ) <= cells@[k].1,
            exists|k: int| 0 <= k < cells@.len() && #[trigger] cells@[k].0 == min_row(cells@),
            exists|k: int| 0 <= k < cells@.len() && #[trigger] cells@[k].1 == min_col(cells@),
            out@ == shifted(cells@, min_r as int, min_c as int).take(i as int),
        decreases cells@.len() - i,
    {
        let (r, c) = cells[i];
        proof {
            let k1 = choose|k: int| 0 <= k < cells@.len() && #[trigger] cells@[k].0 == min_row(
                cells@,
            );
            let k2 = choose|k: int| 0 <= k < cells@.len() && #[trigger] cells@[k].1 == min_col(
                cells@,
            );
            assert(cells@[i as int].0 - cells@[k1].0 < i32::MAX);
            assert(cells@[i as int].1 - cells@[k2].1 < i32::MAX);
        }
        out.push((r - min_r, c - min_c));
        proof {
            assert(out@ =~= shifted(cells@, min_r as int, min_c as int).take(i + 1));
        }
        i = i + 1;
    }
    proof {
        assert(out@ =~= shifted(cells@, min_r as int, min_c as int));
    }
    sort_cells(out)
}

/// Normalized cells stay within the spread, with non-negative coordinates.
proof fn lemma_normalized_range(s: Seq<(i32, i32)>)
    requires
        spread_ok(s),
    ensures
        forall|i: int|
            #![trigger normalized(s)[i]]
            0 <= i < normalized(s).len() ==> 0 <= normalized(s)[i].0 < i32::MAX && 0
                <= normalized(s)[i].1 < i32::MAX,
        normalized(s).len() == s.len(),
{
    lemma_extrema(s);
    let t = shifted(s, min_row(s), min_col(s));
    lemma_cell_leq_total();
    t.lemma_sort_by_ensures(cell_leq());
    let n = normalized(s);
    if s.len() > 0 {
        let k1 = choose|k: int| 0 <= k < s.len() && #[trigger] s[k].0 == min_row(s);
        let k2 = choose|k: int| 0 <= k < s.len() && #[trigger] s[k].1 == min_col(s);
        assert forall|i: int| 0 <= i < t.len() implies 0 <= #[trigger] t[i].0 < i32::MAX && 0
            <= t[i].1 < i32::MAX by {
            assert(s[i].0 - s[k1].0 < i32::MAX);
            assert(s[i].1 - s[k2].1 < i32::MAX);
        }
        assert forall|i: int| 0 <= i < n.len() implies 0 <= #[trigger] n[i].0 < i32::MAX && 0
            <= n[i].1 < i32::MAX by {
            vstd::seq_lib::to_multiset_contains(n, n[i]);
            vstd::seq_lib::to_multiset_contains(t, n[i]);
            assert(n.contains(n[i]));
            assert(t.to_multiset().contains(n[i]));
            assert(t.contains(n[i]));
        }
    }
    vstd::seq_lib::to_multiset_len(t);
    vstd::seq_lib::to_multiset_len(n);
}

/// The shape can be measured and turned: its cells' spread fits `i32`,
/// and so do their negations.
pub open spec fn shape_ok(s: Shape) -> bool {
    spread_ok(s.cells@) && negatable(s.cells@)
}

/// Every cell of the shape lies inside its bounding box.
pub open spec fn shape_fits(s: Shape) -> bool {
    &&& 0 <= s.height
    &&& 0 <= s.width
    &&& forall|i: int|
        #![trigger s.cells@[i]]
        0 <= i < s.cells@.len() ==> 0 <= s.cells@[i].0 < s.height && 0 <= s.cells@[i].1 < s.width
}

/// Every shape of the puzzle's bank and of its polyomino clues can be
/// turned, and lies inside its bounding box.
pub open spec fn puzzle_shapes_ok(p: Puzzle) -> bool {
    &&& forall|b: int|
        0 <= b < p.rules.shape_bank@.len() ==> shape_ok(#[trigger] p.rules.shape_bank@[b]) && shape_fits(
            p.rules.shape_bank@[b],
        )
    &&& forall|k: int|
        0 <= k < p.cell_clues@.len() ==> (#[trigger] p.cell_clues@[k] matches CellClue::Polyomino { shape, .. }
            ==> shape_ok(shape) && shape_fits(shape))
}

/// The shape formed by some cells.
pub fn make_shape(cells: &[(i32, i32)]) -> (s: Shape)
    requires
        spread_ok(cells@),
    ensures
        s@ == shape_of(cells@),
        shape_ok(s),
        shape_fits(s),
{
    proof {
        lemma_shape_of_ok(cells@);
        lemma_normalized_range(cells@);
        lemma_extrema(normalized(cells@));
    }
    let cells2 = normalize(cells);
    if cells2.len() == 0 {
        proof {
            lemma_normalized_range(cells@);
        }
        return Shape { height: 0, width: 0, cells: Vec::new() };
    }
    proof {
        lemma_normalized_range(cells@);
        lemma_extrema(cells2@);
    }
    let (max_r, max_c) = max_row_col(&cells2);
    Shape { height: max_r + 1, width: max_c + 1, cells: cells2 }
}

/// The cells rotated by `rot`, then mirrored left-right when `flip`.
pub fn rotate(cells: &[(i32, i32)], rot: Rotation, flip: bool) -> (out: Vec<(i32, i32)>)
    requires
        negatable(cells@),
    ensures
        out@ == rotated(cells@, rot, flip),
{
    let mut out: Vec<(i32, i32)> = Vec::new();
    let mut i: usize = 0;
    while i < cells.len()
        invariant
            i <= cells@.len(),
            negatable(cells@),
            out@ == rotated(cells@, rot, flip).take(i as int),
        decreases cells@.len() - i,
    {
        let (r, c) = cells[i];
        let (nr, nc) = rot.transform(r, c);
        if flip {
            out.push((nr, -nc));
        } else {
            out.push((nr, nc));
        }
        proof {
            assert(out@ =~= rotated(cells@, rot, flip).take(i + 1));
        }
        i = i + 1;
    }
    proof {
        assert(out@ =~= rotated(cells@, rot, flip));
    }
    out
}

/// A copy of the cells.
fn copy_cells(cells: &[(i32, i32)]) -> (out: Vec<(i32, i32)>)
    ensures
        out@ == cells@,
{
    let mut out: Vec<(i32, i32)> = Vec::new();
    let mut i: usize = 0;
    while i < cells.len()
        invariant
            i <= cells@.len(),
            out@ == cells@.take(i as int),
        decreases cells@.len() - i,
    {
        out.push(cells[i]);
        proof {
            assert(out@ =~= cells@.take(i + 1));
        }
        i = i + 1;
    }
    proof {
        assert(out@ =~= cells@);
    }
    out
}

/// A copy of a shape.
pub fn copy_shape(s: &Shape) -> (t: Shape)
    ensures
        t@ == s@,
{
    Shape { height: s.height, width: s.width, cells: copy_cells(&s.cells) }
}

/// `a` comes before `b` in the order of shapes.
pub fn shape_less(a: &Shape, b: &Shape) -> (r: bool)
    ensures
        r == shape_lt(a@, b@),
{
    if a.height != b.height {
        return a.height < b.height;
    }
    if a.width != b.width {
        return a.width < b.width;
    }
    let mut i: usize = 0;
    while i < a.cells.len() && i < b.cells.len() && a.cells[i].0 == b.cells[i].0 && a.cells[i].1
        == b.cells[i].1
        invariant
            i <= a.cells@.len(),
            i <= b.cells@.len(),
            lex_lt(a.cells@, b.cells@, 0) == lex_lt(a.cells@, b.cells@, i as int),
        decreases a.cells@.len() - i,
    {
        i = i + 1;
    }
    if i >= a.cells.len() {
        i < b.cells.len()
    } else if i >= b.cells.len() {
        false
    } else {
        let (x, y) = (a.cells[i], b.cells[i]);
        x.0 < y.0 || (x.0 == y.0 && x.1 < y.1)
    }
}

/// `a` and `b` are the same shape.
pub fn shape_equal(a: &Shape, b: &Shape) -> (r: bool)
    ensures
        r == (a@ == b@),
{
    if a.height != b.height || a.width != b.width || a.cells.len() != b.cells.len() {
        return false;
    }
    let mut i: usize = 0;
    while i < a.cells.len()
        invariant
            i <= a.cells@.len(),
            a.cells@.len() == b.cells@.len(),
            forall|k: int| 0 <= k < i ==> a.cells@[k] == b.cells@[k],
        decreases a.cells@.len() - i,
    {
        if a.cells[i].0 != b.cells[i].0 || a.cells[i].1 != b.cells[i].1 {
            return false;
        }
        i = i + 1;
    }
    proof {
        assert(a.cells@ =~= b.cells@);
    }
    true
}

/// The canonical form of a shape: the smallest of it and its rotations and reflections.
pub fn canonical(s: &Shape) -> (c: Shape)
    requires
        spread_ok(s.cells@),
        negatable(s.cells@),
    ensures
        c@ == canonical_spec(s@),
        spread_ok(c.cells@),
        negatable(c.cells@),
{
    proof {
        lemma_canonical_ok(s@, 8);
    }
    let mut best = copy_shape(s);
    let rots = Rotation::all();
    let mut k: usize = 0;
    while k < 4
        invariant
            k <= 4,
            spread_ok(s.cells@),
            negatable(s.cells@),
            rots@ == seq![Rotation::R0, Rotation::R90, Rotation::R180, Rotation::R270],
            best@ == canonical_upto(s@, 2 * k as int),
        decreases 4 - k,
    {
        let rot = rots[k];
        assert(rot == Rotation::of_index(k as int));
        proof {
            lemma_rotated_spread(s.cells@, rot, false);
            lemma_rotated_spread(s.cells@, rot, true);
        }
        let cand = make_shape(&rotate(&s.cells, rot, false));
        proof {
            assert((2 * k) / 2 == k && (2 * k) % 2 == 0) by (nonlinear_arith);
        }
        if shape_less(&cand, &best) {
            best = cand;
        }
        assert(best@ == canonical_upto(s@, 2 * k + 1));
        let cand = make_shape(&rotate(&s.cells, rot, true));
        proof {
            assert((2 * k + 1) / 2 == k && (2 * k + 1) % 2 == 1) by (nonlinear_arith);
        }
        if shape_less(&cand, &best) {
            best = cand;
        }
        assert(best@ == canonical_upto(s@, 2 * k + 2));
        k = k + 1;
    }
    best
}

/// Check if a Shape fills its bounding box completely (is rectangular).
pub fn is_rectangular_shape(shape: &Shape) -> (r: bool)
    requires
        shape.height * shape.width <= usize::MAX,
        shape.height * shape.width >= i32::MIN,
        shape.height * shape.width <= i32::MAX,
    ensures
        r == (shape.cells@.len() > 0 && shape.height * shape.width == shape.cells@.len()),
{
    if shape.cells.len() == 0 {
        return false;
    }
    let area = shape.height * shape.width;
    if area < 0 {
        return false;
    }
    (area as usize) == shape.cells.len()
}


/// The cells of a piece lie within grid coordinates (row, column) = (id / cols, id % cols).
pub open spec fn rows_of(cells: Seq<usize>, cols: int) -> Seq<int> {
    Seq::new(cells.len(), |i: int| cells[i] as int / cols)
}

pub open spec fn cols_of(cells: Seq<usize>, cols: int) -> Seq<int> {
    Seq::new(cells.len(), |i: int| cells[i] as int % cols)
}

/// The smallest of `init` and the values.
pub open spec fn fold_min(s: Seq<int>, init: int) -> int
    decreases s.len(),
{
    if s.len() == 0 {
        init
    } else {
        let m = fold_min(s.drop_last(), init);
        if s.last() < m {
            s.last()
        } else {
            m
        }
    }
}

/// The largest of `init` and the values.
pub open spec fn fold_max(s: Seq<int>, init: int) -> int
    decreases s.len(),
{
    if s.len() == 0 {
        init
    } else {
        let m = fold_max(s.drop_last(), init);
        if s.last() > m {
            s.last()
        } else {
            m
        }
    }
}

proof fn lemma_fold_bounds(s: Seq<int>, init: int)
    ensures
        forall|i: int| 0 <= i < s.len() ==> fold_min(s, init) <= #[trigger] s[i] <= fold_max(s, init),
        fold_min(s, init) <= init <= fold_max(s, init),
        fold_min(s, init) == init || exists|i: int| 0 <= i < s.len() && s[i] == fold_min(s, init),
        fold_max(s, init) == init || exists|i: int| 0 <= i < s.len() && s[i] == fold_max(s, init),
    decreases s.len(),
{
    if s.len() > 0 {
        let t = s.drop_last();
        lemma_fold_bounds(t, init);
        assert forall|i: int| 0 <= i < t.len() implies #[trigger] s[i] == t[i] by {}
        assert(s[s.len() - 1] == s.last());
    }
}

/// A piece is rectangular: it is not empty and fills the bounding box of its cells.
pub open spec fn piece_is_rectangular(cells: Seq<usize>, rows: int, cols: int) -> bool {
    let rs = rows_of(cells, cols);
    let cs = cols_of(cells, cols);
    cells.len() > 0 && cells.len() == (fold_max(rs, 0) - fold_min(rs, rows) + 1) * (fold_max(
        cs,
        0,
    ) - fold_min(cs, cols) + 1)
}

pub fn is_rectangular(piece: &Piece, grid: &Grid) -> (r: bool)
    requires
        grid.wf(),
        forall|i: int| 0 <= i < piece.cells@.len() ==> #[trigger] piece.cells@[i] < grid.n_cells(),
    ensures
        r == piece_is_rectangular(piece.cells@, grid.rows as int, grid.cols as int),
{
    if piece.cells.len() == 0 {
        return false;
    }
    let ghost rs = rows_of(piece.cells@, grid.cols as int);
    let ghost cs = cols_of(piece.cells@, grid.cols as int);
    proof {
        if grid.cols == 0 || grid.rows == 0 {
            assert(grid.n_cells() == 0);
            assert(piece.cells@[0] < 0);
        }
    }
    let mut min_r = grid.rows;
    let mut max_r = 0usize;
    let mut min_c = grid.cols;
    let mut max_c = 0usize;
    let mut i: usize = 0;
    while i < piece.cells.len()
        invariant
            grid.wf(),
            grid.cols > 0,
            i <= piece.cells@.len(),
            forall|k: int| 0 <= k < piece.cells@.len() ==> #[trigger] piece.cells@[k] < grid.n_cells(),
            rs == rows_of(piece.cells@, grid.cols as int),
            cs == cols_of(piece.cells@, grid.cols as int),
            min_r == fold_min(rs.take(i as int), grid.rows as int),
            max_r == fold_max(rs.take(i as int), 0),
            min_c == fold_min(cs.take(i as int), grid.cols as int),
            max_c == fold_max(cs.take(i as int), 0),
            max_r < grid.rows,
            max_c < grid.cols,
            grid.rows > 0,
        decreases piece.cells@.len() - i,
    {
        let (r, col) = grid.cell_pos(piece.cells[i]);
        proof {
            crate::grid::lemma_div_mod_in_box(
                piece.cells@[i as int] as int,
                grid.rows as int,
                grid.cols as int,
            );
            assert(rs.take(i + 1).drop_last() =~= rs.take(i as int));
            assert(cs.take(i + 1).drop_last() =~= cs.take(i as int));
        }
        if r < min_r {
            min_r = r;
        }
        if r > max_r {
            max_r = r;
        }
        if col < min_c {
            min_c = col;
        }
        if col > max_c {
            max_c = col;
        }
        i = i + 1;
    }
    proof {
        assert(rs.take(rs.len() as int) =~= rs);
        assert(cs.take(cs.len() as int) =~= cs);
        lemma_fold_bounds(rs, grid.rows as int);
        lemma_fold_bounds(rs, 0);
        lemma_fold_bounds(cs, grid.cols as int);
        lemma_fold_bounds(cs, 0);
        assert(rs[0] == piece.cells@[0] as int / grid.cols as int);
        crate::grid::lemma_div_mod_in_box(piece.cells@[0] as int, grid.rows as int, grid.cols as int);
        crate::grid::lemma_mul_le(
            max_r - min_r + 1,
            max_c - min_c + 1,
            grid.rows as int,
            grid.cols as int,
        );
        grid.lemma_sizes();
    }
    let expected = (max_r - min_r + 1) * (max_c - min_c + 1);
    piece.cells.len() == expected
}

// ── Named shapes and shape text ──────────────────────────────────────────────

/// The cells of the shape with the given name, if the name is known.
///
/// Monomino `o`, domino `oo`, triominoes `ooo` and `8o`, tetrominoes `I O T S Z L J`,
/// pentominoes `F P N U V W X Y II LL TT ZZ`.
pub open spec fn named_cells(name: Seq<u8>) -> Option<Seq<(i32, i32)>> {
    if name == seq![ascii::LO_o] {
        Some(seq![(0i32, 0i32)])
    } else if name == seq![ascii::LO_o, ascii::LO_o] {
        Some(seq![(0i32, 0i32), (0, 1)])
    } else if name == seq![ascii::LO_o, ascii::LO_o, ascii::LO_o] {
        Some(seq![(0i32, 0i32), (0, 1), (0, 2)])
    } else if name == seq![ascii::EIGHT, ascii::LO_o] {
        Some(seq![(0i32, 0i32), (1, 0), (1, 1)])
    } else if name == seq![ascii::UP_I] {
        Some(seq![(0i32, 0i32), (0, 1), (0, 2), (0, 3)])
    } else if name == seq![ascii::UP_O] {
        Some(seq![(0i32, 0i32), (0, 1), (1, 0), (1, 1)])
    } else if name == seq![ascii::UP_T] {
        Some(seq![(0i32, 0i32), (0, 1), (0, 2), (1, 1)])
    } else if name == seq![ascii::UP_S] {
        Some(seq![(0i32, 1i32), (0, 2), (1, 0), (1, 1)])
    } else if name == seq![ascii::UP_Z] {
        Some(seq![(0i32, 0i32), (0, 1), (1, 1), (1, 2)])
    } else if name == seq![ascii::UP_L] {
        Some(seq![(0i32, 0i32), (1, 0), (2, 0), (2, 1)])
    } else if name == seq![ascii::UP_J] {
        Some(seq![(0i32, 0i32), (0, 1), (1, 0), (2, 0)])
    } else if name == seq![ascii::UP_F] {
        Some(seq![(0i32, 1i32), (0, 2), (1, 0), (1, 1), (2, 1)])
    } else if name == seq![ascii::UP_P] {
        Some(seq![(0i32, 0i32), (0, 1), (1, 0), (1, 1), (2, 0)])
    } else if name == seq![ascii::UP_N] {
        Some(seq![(0i32, 0i32), (1, 0), (1, 1), (2, 1), (3, 1)])
    } else if name == seq![ascii::UP_U] {
        Some(seq![(0i32, 0i32), (0, 2), (1, 0), (1, 1), (1, 2)])
    } else if name == seq![ascii::UP_V] {
        Some(seq![(0i32, 0i32), (1, 0), (2, 0), (2, 1), (2, 2)])
    } else if name == seq![ascii::UP_W] {
        Some(seq![(0i32, 0i32), (1, 0), (1, 1), (2, 1), (2, 2)])
    } else if name == seq![ascii::UP_X] {
        Some(seq![(0i32, 1i32), (1, 0), (1, 1), (1, 2), (2, 1)])
    } else if name == seq![ascii::UP_Y] {
        Some(seq![(0i32, 1i32), (1, 0), (1, 1), (2, 1), (3, 1)])
    } else if name == seq![ascii::UP_I, ascii::UP_I] {
        Some(seq![(0i32, 0i32), (0, 1), (0, 2), (0, 3), (0, 4)])
    } else if name == seq![ascii::UP_L, ascii::UP_L] {
        Some(seq![(0i32, 0i32), (1, 0), (2, 0), (3, 0), (3, 1)])
    } else if name == seq![ascii::UP_T, ascii::UP_T] {
        Some(seq![(0i32, 0i32), (0, 1), (0, 2), (1, 1), (2, 1)])
    } else if name == seq![ascii::UP_Z, ascii::UP_Z] {
        Some(seq![(0i32, 0i32), (0, 1), (1, 1), (2, 1), (2, 2)])
    } else {
        None
    }
}

/// The cells of a named shape are small and non-negative.
proof fn lemma_named_cells_small(name: Seq<u8>)
    ensures
        named_cells(name) matches Some(c) ==> forall|i: int|
            0 <= i < c.len() ==> 0 <= #[trigger] c[i].0 <= 4 && 0 <= c[i].1 <= 4,
{
}

/// Small non-negative coordinates have a small spread.
proof fn lemma_small_spread(c: Seq<(i32, i32)>, bound: int)
    requires
        0 <= bound < i32::MAX,
        forall|i: int| 0 <= i < c.len() ==> 0 <= #[trigger] c[i].0 <= bound && 0 <= c[i].1 <= bound,
    ensures
        spread_ok(c),
        negatable(c),
{
    assert forall|i: int, j: int| #![trigger c[i], c[j]] 0 <= i < c.len() && 0 <= j < c.len() implies c[i].0
        - c[j].0 < i32::MAX && c[i].1 - c[j].1 < i32::MAX by {
        assert(0 <= c[i].0 <= bound && 0 <= c[j].0 <= bound);
    }
}

fn bytes_are(name: &[u8], lit: &[u8]) -> (r: bool)
    ensures
        r == (name@ == lit@),
{
    if name.len() != lit.len() {
        return false;
    }
    let mut i: usize = 0;
    while i < name.len()
        invariant
            i <= name@.len(),
            name@.len() == lit@.len(),
            forall|k: int| 0 <= k < i ==> name@[k] == lit@[k],
        decreases name@.len() - i,
    {
        if name[i] != lit[i] {
            return false;
        }
        i = i + 1;
    }
    proof {
        assert(name@ =~= lit@);
    }
    true
}

/// The cells of the shape with the given name.
fn named_cells_exec(name: &[u8]) -> (r: Option<Vec<(i32, i32)>>)
    ensures
        r matches Some(v) ==> named_cells(name@) == Some(v@),
        r is None ==> named_cells(name@) is None,
{
    let o = [ascii::LO_o];
    let oo = [ascii::LO_o, ascii::LO_o];
    let ooo = [ascii::LO_o, ascii::LO_o, ascii::LO_o];
    let eo = [ascii::EIGHT, ascii::LO_o];
    assert(o@ == seq![ascii::LO_o]);
    assert(oo@ == seq![ascii::LO_o, ascii::LO_o]);
    assert(ooo@ == seq![ascii::LO_o, ascii::LO_o, ascii::LO_o]);
    assert(eo@ == seq![ascii::EIGHT, ascii::LO_o]);
    if bytes_are(name, &o) {
        assert(o@ == seq![ascii::LO_o]);
        return Some(vec![(0, 0)]);
    }
    if bytes_are(name, &oo) {
        assert(name@.len() == 2);
        assert(oo@ == seq![ascii::LO_o, ascii::LO_o]);
        return Some(vec![(0, 0), (0, 1)]);
    }
    if bytes_are(name, &ooo) {
        assert(name@.len() == 3);
        assert(ooo@ == seq![ascii::LO_o, ascii::LO_o, ascii::LO_o]);
        return Some(vec![(0, 0), (0, 1), (0, 2)]);
    }
    if bytes_are(name, &eo) {
        assert(name@.len() == 2);
        assert(eo@ == seq![ascii::EIGHT, ascii::LO_o]);
        return Some(vec![(0, 0), (1, 0), (1, 1)]);
    }
    if name.len() == 1 {
        let a = name[0];
        proof {
            assert(name@ == seq![a]);
        }
        if a == ascii::UP_I {
            return Some(vec![(0, 0), (0, 1), (0, 2), (0, 3)]);
        } else if a == ascii::UP_O {
            return Some(vec![(0, 0), (0, 1), (1, 0), (1, 1)]);
        } else if a == ascii::UP_T {
            return Some(vec![(0, 0), (0, 1), (0, 2), (1, 1)]);
        } else if a == ascii::UP_S {
            return Some(vec![(0, 1), (0, 2), (1, 0), (1, 1)]);
        } else if a == ascii::UP_Z {
            return Some(vec![(0, 0), (0, 1), (1, 1), (1, 2)]);
        } else if a == ascii::UP_L {
            return Some(vec![(0, 0), (1, 0), (2, 0), (2, 1)]);
        } else if a == ascii::UP_J {
            return Some(vec![(0, 0), (0, 1), (1, 0), (2, 0)]);
        } else if a == ascii::UP_F {
            return Some(vec![(0, 1), (0, 2), (1, 0), (1, 1), (2, 1)]);
        } else if a == ascii::UP_P {
            return Some(vec![(0, 0), (0, 1), (1, 0), (1, 1), (2, 0)]);
        } else if a == ascii::UP_N {
            return Some(vec![(0, 0), (1, 0), (1, 1), (2, 1), (3, 1)]);
        } else if a == ascii::UP_U {
            return Some(vec![(0, 0), (0, 2), (1, 0), (1, 1), (1, 2)]);
        } else if a == ascii::UP_V {
            return Some(vec![(0, 0), (1, 0), (2, 0), (2, 1), (2, 2)]);
        } else if a == ascii::UP_W {
            return Some(vec![(0, 0), (1, 0), (1, 1), (2, 1), (2, 2)]);
        } else if a == ascii::UP_X {
            return Some(vec![(0, 1), (1, 0), (1, 1), (1, 2), (2, 1)]);
        } else if a == ascii::UP_Y {
            return Some(vec![(0, 1), (1, 0), (1, 1), (2, 1), (3, 1)]);
        }
        return None;
    }
    if name.len() == 2 && name[0] == name[1] {
        let a = name[0];
        proof {
            assert(name@ == seq![a, a]);
        }
        if a == ascii::UP_I {
            return Some(vec![(0, 0), (0, 1), (0, 2), (0, 3), (0, 4)]);
        } else if a == ascii::UP_L {
            return Some(vec![(0, 0), (1, 0), (2, 0), (3, 0), (3, 1)]);
        } else if a == ascii::UP_T {
            return Some(vec![(0, 0), (0, 1), (0, 2), (1, 1), (2, 1)]);
        } else if a == ascii::UP_Z {
            return Some(vec![(0, 0), (0, 1), (1, 1), (2, 1), (2, 2)]);
        }
        return None;
    }
    proof {
        if name@.len() == 2 {
            assert(name@ != seq![ascii::UP_I, ascii::UP_I]);
        }
    }
    None
}

/// The shape with the given name (its bytes), if the name is known.
pub fn named_shape(name: &[u8]) -> (r: Option<Shape>)
    ensures
        r matches Some(s) ==> named_cells(name@) matches Some(c) && s@ == shape_of(c),
        r matches Some(s) ==> shape_ok(s) && shape_fits(s),
        r is None ==> named_cells(name@) is None,
{
    match named_cells_exec(name) {
        Some(cells) => {
            proof {
                lemma_named_cells_small(name@);
                lemma_small_spread(cells@, 4);
            }
            Some(make_shape(&cells))
        },
        None => None,
    }
}

/// The shape with the given name, if the name is known.
pub fn get_named_shape(name: &str) -> (r: Option<Shape>)
    ensures
        r matches Some(s) ==> named_cells(name.spec_bytes()) matches Some(c) && s@ == shape_of(c),
        r is None ==> named_cells(name.spec_bytes()) is None,
{
    named_shape(name.as_bytes())
}

/// The `#` cells of shape text: row = line index, column = position in the line.
pub open spec fn hash_cells<T>(lines: Seq<Seq<T>>, hash: T, r: int) -> Seq<(i32, i32)>
    decreases lines.len() - r,
{
    if r < 0 || r >= lines.len() {
        seq![]
    } else {
        row_hash_cells(lines[r], hash, r, 0) + hash_cells(lines, hash, r + 1)
    }
}

/// The `#` cells of one line of shape text, from position `c` on.
pub open spec fn row_hash_cells<T>(line: Seq<T>, hash: T, r: int, c: int) -> Seq<(i32, i32)>
    decreases line.len() - c,
{
    if c < 0 || c >= line.len() {
        seq![]
    } else if line[c] == hash {
        seq![(r as i32, c as i32)] + row_hash_cells(line, hash, r, c + 1)
    } else {
        row_hash_cells(line, hash, r, c + 1)
    }
}

/// Cells found in rows from `r` on lie in those rows and columns.
proof fn lemma_hash_cells_range<T>(lines: Seq<Seq<T>>, hash: T, r: int, bound: int)
    requires
        0 <= r,
        lines.len() <= bound,
        bound <= i32::MAX,
        forall|k: int| 0 <= k < lines.len() ==> #[trigger] lines[k].len() <= bound,
    ensures
        forall|i: int|
            0 <= i < hash_cells(lines, hash, r).len() ==> r <= #[trigger] hash_cells(
                lines,
                hash,
                r,
            )[i].0 < bound && 0 <= hash_cells(lines, hash, r)[i].1 < bound,
    decreases lines.len() - r,
{
    if r < lines.len() {
        lemma_row_cells_range(lines[r], hash, r, 0, bound);
        lemma_hash_cells_range(lines, hash, r + 1, bound);
        let a = row_hash_cells(lines[r], hash, r, 0);
        let b = hash_cells(lines, hash, r + 1);
        assert forall|i: int| 0 <= i < (a + b).len() implies r <= #[trigger] (a + b)[i].0 < bound
            && 0 <= (a + b)[i].1 < bound by {
            if i < a.len() {
                assert((a + b)[i] == a[i]);
            } else {
                assert((a + b)[i] == b[i - a.len()]);
            }
        }
    }
}

proof fn lemma_row_cells_range<T>(line: Seq<T>, hash: T, r: int, c: int, bound: int)
    requires
        0 <= r < bound,
        0 <= c,
        line.len() <= bound,
        bound <= i32::MAX,
    ensures
        forall|i: int|
            #![trigger row_hash_cells(line, hash, r, c)[i]]
            0 <= i < row_hash_cells(line, hash, r, c).len() ==> row_hash_cells(line, hash, r, c)[i].0
                == r && c <= row_hash_cells(line, hash, r, c)[i].1 < bound,
    decreases line.len() - c,
{
    if c < line.len() {
        lemma_row_cells_range(line, hash, r, c + 1, bound);
        let rest = row_hash_cells(line, hash, r, c + 1);
        let all = row_hash_cells(line, hash, r, c);
        if line[c] == hash {
            let a = seq![(r as i32, c as i32)];
            assert(all == a + rest);
            assert forall|i: int| 0 <= i < all.len() implies #[trigger] all[i].0 == r && c
                <= all[i].1 < bound by {
                if i > 0 {
                    assert(all[i] == rest[i - 1]);
                } else {
                    assert(all[0] == (r as i32, c as i32));
                }
            }
        } else {
            assert(all == rest);
        }
    }
}

/// The shape drawn by text lines, `#` marking its cells.
pub fn parse_shape(lines: &[&str]) -> (s: Shape)
    requires
        lines@.len() < i32::MAX,
        forall|k: int| 0 <= k < lines@.len() ==> (#[trigger] lines@[k])@.len() < i32::MAX,
    ensures
        s@ == shape_of(hash_cells(Seq::new(lines@.len(), |k: int| lines@[k]@), '#', 0)),
{
    let ghost text = Seq::new(lines@.len(), |k: int| lines@[k]@);
    let mut cells: Vec<(i32, i32)> = Vec::new();
    let mut r: usize = 0;
    while r < lines.len()
        invariant
            r <= lines@.len(),
            lines@.len() < i32::MAX,
            forall|k: int| 0 <= k < lines@.len() ==> (#[trigger] lines@[k])@.len() < i32::MAX,
            text == Seq::new(lines@.len(), |k: int| lines@[k]@),
            cells@ + hash_cells(text, '#', r as int) == hash_cells(text, '#', 0),
        decreases lines@.len() - r,
    {
        let line = lines[r];
        let n = line.unicode_len();
        let mut c: usize = 0;
        while c < n
            invariant
                r < lines@.len(),
                lines@.len() < i32::MAX,
                line@.len() < i32::MAX,
                n == line@.len(),
                c <= n,
                text[r as int] == line@,
                cells@ + row_hash_cells(line@, '#', r as int, c as int) + hash_cells(
                    text,
                    '#',
                    r + 1,
                ) == hash_cells(text, '#', 0),
            decreases n - c,
        {
            let ch = line.get_char(c);
            if ch == '#' {
                let ghost before = cells@;
                cells.push((r as i32, c as i32));
                proof {
                    assert(before + row_hash_cells(line@, '#', r as int, c as int) =~= cells@
                        + row_hash_cells(line@, '#', r as int, c + 1));
                }
            }
            c = c + 1;
        }
        r = r + 1;
    }
    proof {
        assert(cells@ =~= hash_cells(text, '#', 0));
        let b = if lines@.len() > 0 { lines@.len() as int } else { 1 };
        assert forall|k: int| 0 <= k < text.len() implies #[trigger] text[k].len() <= (i32::MAX as int) - 1 by {}
        lemma_hash_cells_range(text, '#', 0, (i32::MAX as int) - 1);
        lemma_small_spread(cells@, (i32::MAX as int) - 2);
    }
    make_shape(&cells)
}

/// The shape drawn by byte lines of text, `#` marking its cells.
pub fn parse_shape_bytes(lines: &[Vec<u8>]) -> (s: Shape)
    requires
        lines@.len() < i32::MAX,
        forall|k: int| 0 <= k < lines@.len() ==> (#[trigger] lines@[k])@.len() < i32::MAX,
    ensures
        s@ == shape_of(hash_cells(Seq::new(lines@.len(), |k: int| lines@[k]@), ascii::HASH, 0)),
        shape_ok(s),
        shape_fits(s),
{
    let ghost text = Seq::new(lines@.len(), |k: int| lines@[k]@);
    let mut cells: Vec<(i32, i32)> = Vec::new();
    let mut r: usize = 0;
    while r < lines.len()
        invariant
            r <= lines@.len(),
            lines@.len() < i32::MAX,
            forall|k: int| 0 <= k < lines@.len() ==> (#[trigger] lines@[k])@.len() < i32::MAX,
            text == Seq::new(lines@.len(), |k: int| lines@[k]@),
            cells@ + hash_cells(text, ascii::HASH, r as int) == hash_cells(text, ascii::HASH, 0),
        decreases lines@.len() - r,
    {
        let line = &lines[r];
        let n = line.len();
        let mut c: usize = 0;
        while c < n
            invariant
                r < lines@.len(),
                lines@.len() < i32::MAX,
                line@.len() < i32::MAX,
                n == line@.len(),
                c <= n,
                text[r as int] == line@,
                cells@ + row_hash_cells(line@, ascii::HASH, r as int, c as int) + hash_cells(
                    text,
                    ascii::HASH,
                    r + 1,
                ) == hash_cells(text, ascii::HASH, 0),
            decreases n - c,
        {
            if line[c] == ascii::HASH {
                let ghost before = cells@;
                cells.push((r as i32, c as i32));
                proof {
                    assert(before + row_hash_cells(line@, ascii::HASH, r as int, c as int) =~= cells@
                        + row_hash_cells(line@, ascii::HASH, r as int, c + 1));
                }
            }
            c = c + 1;
        }
        r = r + 1;
    }
    proof {
        assert(cells@ =~= hash_cells(text, ascii::HASH, 0));
        assert forall|k: int| 0 <= k < text.len() implies #[trigger] text[k].len() <= (i32::MAX as int) - 1 by {}
        lemma_hash_cells_range(text, ascii::HASH, 0, (i32::MAX as int) - 1);
        lemma_small_spread(cells@, (i32::MAX as int) - 2);
    }
    make_shape(&cells)
}

// ── Order of shapes ──────────────────────────────────────────────────────────

proof fn lemma_lex_asym(a: Seq<(i32, i32)>, b: Seq<(i32, i32)>, i: int)
    requires
        0 <= i,
    ensures
        lex_lt(a, b, i) ==> !lex_lt(b, a, i),
    decreases a.len() - i,
{
    if i < a.len() && i < b.len() && a[i] == b[i] {
        lemma_lex_asym(a, b, i + 1);
    }
}

proof fn lemma_lex_trans(a: Seq<(i32, i32)>, b: Seq<(i32, i32)>, c: Seq<(i32, i32)>, i: int)
    requires
        0 <= i,
    ensures
        lex_lt(a, b, i) && lex_lt(b, c, i) ==> lex_lt(a, c, i),
    decreases a.len() - i,
{
    if i < a.len() && i < b.len() && i < c.len() && a[i] == b[i] && b[i] == c[i] {
        lemma_lex_trans(a, b, c, i + 1);
    }
}

proof fn lemma_lex_trichotomy(a: Seq<(i32, i32)>, b: Seq<(i32, i32)>, i: int)
    requires
        0 <= i <= a.len(),
        i <= b.len(),
    ensures
        lex_lt(a, b, i) || lex_lt(b, a, i) || (a.len() == b.len() && forall|k: int|
            i <= k < a.len() ==> a[k] == b[k]),
    decreases a.len() - i,
{
    if i < a.len() && i < b.len() && a[i] == b[i] {
        lemma_lex_trichotomy(a, b, i + 1);
        if a.len() == b.len() && forall|k: int| i + 1 <= k < a.len() ==> a[k] == b[k] {
            assert forall|k: int| i <= k < a.len() implies a[k] == b[k] by {
                if k > i {
                    assert(a[k] == b[k]);
                }
            }
        }
    }
}

/// The order of shapes is a strict total order.
pub proof fn lemma_shape_order(a: ShapeView, b: ShapeView, c: ShapeView)
    ensures
        shape_lt(a, b) ==> !shape_lt(b, a),
        shape_lt(a, b) && shape_lt(b, c) ==> shape_lt(a, c),
        a != b ==> shape_lt(a, b) || shape_lt(b, a),
{
    lemma_lex_asym(a.2, b.2, 0);
    lemma_lex_trans(a.2, b.2, c.2, 0);
    lemma_lex_trichotomy(a.2, b.2, 0);
    if a.0 == b.0 && a.1 == b.1 && a.2.len() == b.2.len() && forall|k: int|
        0 <= k < a.2.len() ==> a.2[k] == b.2[k] {
        assert(a.2 =~= b.2);
    }
}

// ── Enumeration of free polyominoes ──────────────────────────────────────────

/// Shifting and sorting keep the number of cells.
proof fn lemma_shape_of_len(s: Seq<(i32, i32)>)
    requires
        spread_ok(s),
    ensures
        shape_of(s).2.len() == s.len(),
        forall|i: int|
            #![trigger shape_of(s).2[i]]
            0 <= i < shape_of(s).2.len() ==> 0 <= shape_of(s).2[i].0 < i32::MAX && 0
                <= shape_of(s).2[i].1 < i32::MAX,
{
    lemma_normalized_range(s);
}

/// Every orientation, and so the canonical form, keeps the number of cells.
proof fn lemma_canonical_len(s: ShapeView, k: int)
    requires
        spread_ok(s.2),
        negatable(s.2),
        0 <= k <= 8,
    ensures
        canonical_upto(s, k).2.len() == s.2.len(),
    decreases k,
{
    if k > 0 {
        lemma_canonical_len(s, k - 1);
        let rot = Rotation::of_index((k - 1) / 2);
        lemma_rotated_spread(s.2, rot, (k - 1) % 2 == 1);
        lemma_shape_of_len(rotated(s.2, rot, (k - 1) % 2 == 1));
    }
}

/// Cells with coordinates in `0..i32::MAX` can be measured and negated.
pub proof fn lemma_nonneg_cells_ok(s: Seq<(i32, i32)>)
    requires
        forall|i: int| 0 <= i < s.len() ==> 0 <= #[trigger] s[i].0 < i32::MAX && 0 <= s[i].1 < i32::MAX,
    ensures
        spread_ok(s),
        negatable(s),
{
}

/// The cells of the shape formed by some cells can be measured and negated.
pub proof fn lemma_shape_of_ok(s: Seq<(i32, i32)>)
    requires
        spread_ok(s),
    ensures
        spread_ok(shape_of(s).2),
        negatable(shape_of(s).2),
{
    lemma_shape_of_len(s);
    lemma_nonneg_cells_ok(shape_of(s).2);
}

/// The cells of every orientation, and so of the canonical form, can be
/// measured and negated.
pub proof fn lemma_canonical_ok(v: ShapeView, k: int)
    requires
        spread_ok(v.2),
        negatable(v.2),
        0 <= k <= 8,
    ensures
        spread_ok(canonical_upto(v, k).2),
        negatable(canonical_upto(v, k).2),
    decreases k,
{
    if k > 0 {
        lemma_canonical_ok(v, k - 1);
        let rot = Rotation::of_index((k - 1) / 2);
        lemma_rotated_spread(v.2, rot, (k - 1) % 2 == 1);
        lemma_shape_of_ok(rotated(v.2, rot, (k - 1) % 2 == 1));
    }
}

/// A shape is the canonical form of some `n` cells, and has `n` cells.
pub open spec fn canonical_of_size(s: ShapeView, n: int) -> bool {
    s.2.len() == n && exists|c: Seq<(i32, i32)>| c.len() == n && s == canonical_spec(shape_of(c))
}

/// The found shapes: canonical forms of `n` cells, strictly increasing, with distinct cells.
pub open spec fn good_results(res: Seq<Shape>, n: int) -> bool {
    &&& forall|i: int| 0 <= i < res.len() ==> canonical_of_size(#[trigger] res[i]@, n)
    &&& forall|i: int, j: int|
        0 <= i < j < res.len() ==> shape_lt(#[trigger] res[i]@, #[trigger] res[j]@)
    &&& forall|i: int, j: int|
        0 <= i < res.len() && 0 <= j < res.len() && i != j ==> #[trigger] res[i].cells@
            != #[trigger] res[j].cells@
}

/// All coordinates lie within `b` of the origin.
pub open spec fn within(s: Seq<(i32, i32)>, b: int) -> bool {
    forall|i: int| 0 <= i < s.len() ==> -b <= #[trigger] s[i].0 <= b && -b <= s[i].1 <= b
}

/// Adds `x` when missing; says whether it was missing.
fn set_insert(v: &mut Vec<(i32, i32)>, x: (i32, i32)) -> (added: bool)
    ensures
        added == !old(v)@.contains(x),
        added ==> final(v)@ == old(v)@.push(x),
        !added ==> final(v)@ == old(v)@,
{
    let mut i: usize = 0;
    while i < v.len()
        invariant
            i <= v@.len(),
            forall|k: int| 0 <= k < i ==> v@[k] != x,
        decreases v@.len() - i,
    {
        if v[i].0 == x.0 && v[i].1 == x.1 {
            assert(v@[i as int] == x);
            return false;
        }
        i = i + 1;
    }
    v.push(x);
    true
}

/// Removes `x` when present.
fn set_remove(v: &mut Vec<(i32, i32)>, x: (i32, i32))
    ensures
        !final(v)@.contains(x) || old(v)@.len() > final(v)@.len(),
{
    let mut i: usize = 0;
    while i < v.len()
        invariant
            i <= v@.len(),
            v@ == old(v)@,
            forall|k: int| 0 <= k < i ==> v@[k] != x,
        decreases v@.len() - i,
    {
        if v[i].0 == x.0 && v[i].1 == x.1 {
            v.swap_remove(i);
            return;
        }
        i = i + 1;
    }
}

/// Adds a canonical shape to the sorted results unless a shape with the same cells is there.
fn add_result(results: &mut Vec<Shape>, canon: Shape, Ghost(n): Ghost<int>)
    requires
        good_results(old(results)@, n),
        canonical_of_size(canon@, n),
    ensures
        good_results(final(results)@, n),
        (exists|k: int| 0 <= k < old(results)@.len() && (#[trigger] old(results)@[k]).cells@ == canon.cells@)
            ==> final(results)@ == old(results)@,
        !(exists|k: int| 0 <= k < old(results)@.len() && (#[trigger] old(results)@[k]).cells@ == canon.cells@)
            ==> exists|p: int| 0 <= p <= old(results)@.len() && final(results)@ == old(results)@.insert(p, canon),
{
    let mut i: usize = 0;
    while i < results.len()
        invariant
            i <= results@.len(),
            good_results(results@, n),
            forall|k: int| 0 <= k < i ==> (#[trigger] results@[k]).cells@ != canon.cells@,
        decreases results@.len() - i,
    {
        let same = {
            let a = &results[i].cells;
            let b = &canon.cells;
            if a.len() != b.len() {
                false
            } else {
                let mut k: usize = 0;
                let mut eq = true;
                while k < a.len()
                    invariant
                        k <= a@.len(),
                        a@.len() == b@.len(),
                        eq ==> forall|t: int| 0 <= t < k ==> a@[t] == b@[t],
                        !eq ==> a@ != b@,
                    decreases a@.len() - k,
                {
                    if a[k].0 != b[k].0 || a[k].1 != b[k].1 {
                        eq = false;
                    }
                    k = k + 1;
                }
                if eq {
                    assert(a@ =~= b@);
                }
                eq
            }
        };
        if same {
            proof {
                assert(results@[i as int].cells@ == canon.cells@);
            }
            return;
        }
        i = i + 1;
    }
    let mut p: usize = 0;
    while p < results.len() && !shape_less(&canon, &results[p])
        invariant
            p <= results@.len(),
            forall|k: int| 0 <= k < p ==> !shape_lt(canon@, #[trigger] results@[k]@),
        decreases results@.len() - p,
    {
        p = p + 1;
    }
    let ghost before = results@;
    let ghost x = canon@;
    let ghost cshape = canon;
    results.insert(p, canon);
    proof {
        let after = results@;
        assert(after == before.insert(p as int, cshape));
        assert forall|a: int, b: int| 0 <= a < b < after.len() implies shape_lt(
            #[trigger] after[a]@,
            #[trigger] after[b]@,
        ) by {
            if a == p {
                lemma_shape_order(x, before[p as int]@, before[b - 1]@);
                if b - 1 > p {
                    assert(shape_lt(before[p as int]@, before[b - 1]@));
                }
            } else if b == p {
                assert(before[a].cells@ != x.2);
                lemma_shape_order(before[a]@, x, x);
            } else if a < p && b > p {
                assert(before[a].cells@ != x.2);
                lemma_shape_order(before[a]@, x, before[b - 1]@);
                lemma_shape_order(x, before[p as int]@, before[b - 1]@);
                if b - 1 > p {
                    assert(shape_lt(before[p as int]@, before[b - 1]@));
                }
            } else if b < p {
                assert(shape_lt(before[a]@, before[b]@));
            } else {
                assert(shape_lt(before[a - 1]@, before[b - 1]@));
            }
        }
        assert forall|a: int| 0 <= a < after.len() implies canonical_of_size(
            #[trigger] after[a]@,
            n,
        ) by {
            if a < p {
                assert(after[a] == before[a]);
            } else if a > p {
                assert(after[a] == before[a - 1]);
            }
        }
        assert forall|a: int, b: int|
            0 <= a < after.len() && 0 <= b < after.len() && a != b implies #[trigger] after[a].cells@
            != #[trigger] after[b].cells@ by {
            if a != p && b != p {
                let a0 = if a < p { a } else { a - 1 };
                let b0 = if b < p { b } else { b - 1 };
                assert(after[a] == before[a0]);
                assert(after[b] == before[b0]);
            } else if a == p {
                let b0 = if b < p { b } else { b - 1 };
                assert(after[b] == before[b0]);
            } else {
                let a0 = if a < p { a } else { a - 1 };
                assert(after[a] == before[a0]);
            }
        }
    }
}

/// Redelmeier-style recursive enumeration.
/// `parent_untried` cells at indices < i are permanently discarded for this branch,
/// ensuring each fixed polyomino is generated at most once.
fn poly_rec(
    target: usize,
    cells: &mut Vec<(i32, i32)>,
    parent_untried: &[(i32, i32)],
    placed: &mut Vec<(i32, i32)>,
    results: &mut Vec<Shape>,
)
    requires
        1 <= old(cells)@.len() <= target < 0x4000_0000,
        within(old(cells)@, old(cells)@.len() as int),
        within(parent_untried@, old(cells)@.len() as int),
        parent_untried@.len() <= 4 * old(cells)@.len(),
        good_results(old(results)@, target as int),
    ensures
        final(cells)@ == old(cells)@,
        good_results(final(results)@, target as int),
    decreases target - old(cells)@.len(),
{
    if cells.len() == target {
        proof {
            lemma_small_spread_signed(cells@, target as int);
        }
        let shape = make_shape(cells);
        proof {
            lemma_shape_of_len(cells@);
            lemma_small_spread(shape.cells@, (i32::MAX as int) - 1);
            lemma_canonical_len(shape@, 8);
        }
        let canon = canonical(&shape);
        proof {
            assert(canonical_of_size(canon@, target as int)) by {
                assert(canon@ == canonical_spec(shape_of(cells@)));
            }
        }
        add_result(results, canon, Ghost(target as int));
        return;
    }
    let ghost k = cells@.len() as int;
    let ghost start = cells@;
    assert(start == old(cells)@);
    let mut i: usize = 0;
    while i < parent_untried.len()
        invariant
            i <= parent_untried@.len(),
            cells@ == start,
            start == old(cells)@,
            k == start.len(),
            1 <= k < target < 0x4000_0000,
            within(start, k),
            within(parent_untried@, k),
            parent_untried@.len() <= 4 * k,
            good_results(results@, target as int),
        decreases parent_untried@.len() - i,
    {
        let pos = parent_untried[i];
        // Discard cells before index i; keep cells after
        let mut new_untried: Vec<(i32, i32)> = Vec::new();
        let mut j: usize = i + 1;
        while j < parent_untried.len()
            invariant
                i < j <= parent_untried@.len(),
                within(parent_untried@, k),
                within(new_untried@, k + 1),
                new_untried@.len() == j - i - 1,
            decreases parent_untried@.len() - j,
        {
            let ghost before = new_untried@;
            let x = parent_untried[j];
            proof {
                assert(-k <= parent_untried@[j as int].0 <= k && -k <= parent_untried@[j as int].1 <= k);
            }
            new_untried.push(x);
            proof {
                assert forall|m: int| 0 <= m < new_untried@.len() implies -(k + 1) <= #[trigger] new_untried@[m].0 <= k + 1
                    && -(k + 1) <= new_untried@[m].1 <= k + 1 by {
                    if m < before.len() {
                        assert(new_untried@[m] == before[m]);
                    }
                }
            }
            j = j + 1;
        }
        // Track placed additions for undo
        let mut placed_added: Vec<(i32, i32)> = Vec::new();
        cells.push(pos);
        if set_insert(placed, pos) {
            placed_added.push(pos);
        }
        // Add new frontier neighbors
        let deltas: [(i32, i32); 4] = [(-1, 0), (1, 0), (0, -1), (0, 1)];
        let mut d: usize = 0;
        while d < 4
            invariant
                d <= 4,
                -k <= pos.0 <= k,
                -k <= pos.1 <= k,
                k < 0x4000_0000,
                deltas@ == seq![(-1i32, 0i32), (1i32, 0i32), (0i32, -1i32), (0i32, 1i32)],
                within(new_untried@, k + 1),
                new_untried@.len() <= 4 * k + d,
                cells@ == start.push(pos),
                k == start.len(),
                1 <= k < target < 0x4000_0000,
            decreases 4 - d,
        {
            let (dr, dc) = deltas[d];
            let nb = (pos.0 + dr, pos.1 + dc);
            if set_insert(placed, nb) {
                new_untried.push(nb);
                placed_added.push(nb);
            }
            d = d + 1;
        }
        assert(cells@.len() == k + 1);
        assert(new_untried@.len() <= 4 * k + 4);
        // Pruning: check after computing new_untried (includes growth from neighbors)
        if new_untried.len() >= target - cells.len() {
            poly_rec(target, cells, &new_untried, placed, results);
        }
        cells.pop();
        proof {
            assert(cells@ =~= start);
        }
        let mut t: usize = 0;
        while t < placed_added.len()
            invariant
                t <= placed_added@.len(),
            decreases placed_added@.len() - t,
        {
            set_remove(placed, placed_added[t]);
            t = t + 1;
        }
        i = i + 1;
    }
}

/// Cells within `b` of the origin have a small spread.
proof fn lemma_small_spread_signed(c: Seq<(i32, i32)>, b: int)
    requires
        0 <= b < 0x4000_0000,
        within(c, b),
    ensures
        spread_ok(c),
        negatable(c),
{
    assert forall|i: int, j: int| #![trigger c[i], c[j]] 0 <= i < c.len() && 0 <= j < c.len() implies c[i].0
        - c[j].0 < i32::MAX && c[i].1 - c[j].1 < i32::MAX by {
        assert(-b <= c[i].0 <= b && -b <= c[j].0 <= b);
    }
}

/// Enumerate all distinct free polyominoes of size n.
/// Uses Redelmeier's algorithm with canonical deduplication.
/// Returns canonical shapes sorted by (height, width, cells).
pub fn enumerate_free_polyominoes(n: usize) -> (res: Vec<Shape>)
    requires
        n < 0x4000_0000,
    ensures
        good_results(res@, n as int),
        n == 0 ==> res@.len() == 0,
{
    let mut results: Vec<Shape> = Vec::new();
    if n == 0 {
        return results;
    }
    let mut cells: Vec<(i32, i32)> = Vec::new();
    cells.push((0, 0));
    let mut placed: Vec<(i32, i32)> = Vec::new();
    placed.push((0, 0));
    let mut untried: Vec<(i32, i32)> = Vec::new();
    let deltas: [(i32, i32); 4] = [(0, 1), (1, 0), (0, -1), (-1, 0)];
    let mut d: usize = 0;
    while d < 4
        invariant
            d <= 4,
            deltas@ == seq![(0i32, 1i32), (1i32, 0i32), (0i32, -1i32), (-1i32, 0i32)],
            within(untried@, 1),
            untried@.len() <= d,
        decreases 4 - d,
    {
        let p = deltas[d];
        if set_insert(&mut placed, p) {
            untried.push(p);
        }
        d = d + 1;
    }
    proof {
        assert(within(cells@, 1));
    }
    poly_rec(n, &mut cells, &untried, &mut placed, &mut results);
    results
}
} // verus!
