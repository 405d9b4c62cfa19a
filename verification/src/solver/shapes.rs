//! Area bounds and the shape bank that the piece search draws from.
use vstd::prelude::*;
use super::Solver;
use crate::grid::lemma_index_in_box;
use crate::polyomino::{self, canonical_of_size, shape_of};
use crate::grid::Grid;
use crate::types::Shape;

verus! {

/// Smallest shape size in the bank (`usize::MAX` for an empty bank).
pub open spec fn bank_min(bank: Seq<Shape>) -> usize
    decreases bank.len(),
{
    if bank.len() == 0 {
        usize::MAX
    } else {
        let m = bank_min(bank.drop_last());
        let sz = bank.last().cells@.len();
        if sz < m {
            sz as usize
        } else {
            m
        }
    }
}

/// Largest shape size in the bank (0 for an empty bank).
pub open spec fn bank_max(bank: Seq<Shape>) -> usize
    decreases bank.len(),
{
    if bank.len() == 0 {
        0
    } else {
        let m = bank_max(bank.drop_last());
        let sz = bank.last().cells@.len();
        if sz > m {
            sz as usize
        } else {
            m
        }
    }
}

pub open spec fn max_usize(a: usize, b: usize) -> usize {
    if a >= b {
        a
    } else {
        b
    }
}

pub open spec fn min_usize(a: usize, b: usize) -> usize {
    if a <= b {
        a
    } else {
        b
    }
}

/// The cells of an `h` x `w` rectangle, row by row.
pub open spec fn rect_cells(h: int, w: int) -> Seq<(i32, i32)> {
    Seq::new((h * w) as nat, |k: int| ((k / w) as i32, (k % w) as i32))
}

/// The `w` x `h` rectangle with top-left cell (sr, sc) lies on existing
/// cells and no edge inside it is cut by the drawing (`pre`).
pub open spec fn rect_free(g: Grid, pre: Seq<bool>, sr: int, sc: int, w: int, h: int) -> bool {
    &&& forall|r: int, c: int|
        sr <= r < sr + h && sc <= c < sc + w ==> #[trigger] g.cell_exists@[g.cell_at(r, c)]
    &&& forall|r: int, c: int|
        sr <= r < sr + h - 1 && sc <= c < sc + w ==> !#[trigger] pre[g.h_edge_at(r, c)]
    &&& forall|r: int, c: int|
        sr <= r < sr + h && sc <= c < sc + w - 1 ==> !#[trigger] pre[g.v_edge_at(r, c)]
}

/// Some position of a `w` x `h` rectangle inside the grid is free.
pub open spec fn boxy_placement(g: Grid, pre: Seq<bool>, w: int, h: int) -> bool {
    w <= g.cols && h <= g.rows && exists|sr: int, sc: int|
        0 <= sr <= g.rows - h && 0 <= sc <= g.cols - w && #[trigger] rect_free(g, pre, sr, sc, w, h)
}

impl Solver {
    /// The area bounds from the rules and the shape bank: at least 1 and the
    /// minimum rule and the smallest bank shape; at most the number of cells,
    /// the maximum rule and the largest bank shape.
    pub fn compute_area_bounds(&mut self)
        requires
            old(self).wf(),
        ensures
            final(self).wf(),
            final(self).puzzle == old(self).puzzle,
            final(self).grid == old(self).grid,
            final(self).edges == old(self).edges,
            final(self).changed == old(self).changed,
            final(self).is_pre_cut == old(self).is_pre_cut,
            final(self).total_cells == old(self).total_cells,
            ({
                let r = old(self).puzzle.rules;
                let bank = r.shape_bank@;
                let lo1 = match r.minimum {
                    Some(m) => max_usize(1, m),
                    None => 1,
                };
                let hi1 = match r.maximum {
                    Some(m) => min_usize(old(self).grid.existing_count() as usize, m),
                    None => old(self).grid.existing_count() as usize,
                };
                &&& final(self).eff_min_area == (if bank_max(bank) > 0 {
                    max_usize(lo1, bank_min(bank))
                } else {
                    lo1
                })
                &&& final(self).eff_max_area == (if bank_max(bank) > 0 {
                    min_usize(hi1, bank_max(bank))
                } else {
                    hi1
                })
            }),
    {
        let total = self.grid.total_existing_cells();
        let mut lo: usize = 1;
        let mut hi: usize = total;
        if let Some(m) = self.puzzle.rules.minimum {
            if m > lo {
                lo = m;
            }
        }
        if let Some(m) = self.puzzle.rules.maximum {
            if m < hi {
                hi = m;
            }
        }
        let ghost bank = self.puzzle.rules.shape_bank@;
        let mut bmin: usize = usize::MAX;
        let mut bmax: usize = 0;
        let mut i: usize = 0;
        while i < self.puzzle.rules.shape_bank.len()
            invariant
                i <= bank.len(),
                bank == self.puzzle.rules.shape_bank@,
                bmin == bank_min(bank.take(i as int)),
                bmax == bank_max(bank.take(i as int)),
            decreases bank.len() - i,
        {
            let sz = self.puzzle.rules.shape_bank[i].cells.len();
            proof {
                assert(bank.take(i + 1).drop_last() =~= bank.take(i as int));
            }
            if sz < bmin {
                bmin = sz;
            }
            if sz > bmax {
                bmax = sz;
            }
            i = i + 1;
        }
        proof {
            assert(bank.take(bank.len() as int) =~= bank);
        }
        if bmax > 0 {
            if bmin > lo {
                lo = bmin;
            }
            if bmax < hi {
                hi = bmax;
            }
        }
        self.eff_min_area = lo;
        self.eff_max_area = hi;
    }

    /// The rectangle check of `rect_free`.
    pub fn is_rect_precut_free(&self, sr: usize, sc: usize, w: usize, h: usize) -> (r: bool)
        requires
            self.wf(),
            sr + h <= self.grid.rows,
            sc + w <= self.grid.cols,
        ensures
            r == rect_free(self.grid, self.is_pre_cut@, sr as int, sc as int, w as int, h as int),
    {
        proof {
            self.grid.lemma_sizes();
        }
        let mut r = sr;
        while r < sr + h
            invariant
                self.wf(),
                sr <= r <= sr + h,
                sr + h <= self.grid.rows,
                sc + w <= self.grid.cols,
                forall|a: int, b: int|
                    sr <= a < r && sc <= b < sc + w ==> #[trigger] self.grid.cell_exists@[self.grid.cell_at(a, b)],
            decreases sr + h - r,
        {
            let mut c = sc;
            while c < sc + w
                invariant
                    self.wf(),
                    sr <= r < sr + h,
                    sc <= c <= sc + w,
                    sr + h <= self.grid.rows,
                    sc + w <= self.grid.cols,
                    forall|a: int, b: int|
                        (sr <= a < r && sc <= b < sc + w) || (a == r && sc <= b < c) ==> #[trigger] self.grid.cell_exists@[self.grid.cell_at(a, b)],
                decreases sc + w - c,
            {
                proof {
                    lemma_index_in_box(r as int, c as int, self.grid.rows as int, self.grid.cols as int);
                    self.grid.lemma_sizes();
                }
                let cid = self.grid.cell_id(r, c);
                if !self.grid.cell_exists[cid] {
                    return false;
                }
                c = c + 1;
            }
            r = r + 1;
        }
        let hm = if h > 0 { h - 1 } else { 0 };
        let mut r = sr;
        while r < sr + hm
            invariant
                self.wf(),
                sr <= r <= sr + hm,
                hm == (if h > 0 { h - 1 } else { 0 }),
                sr + h <= self.grid.rows,
                sc + w <= self.grid.cols,
                forall|a: int, b: int|
                    sr <= a < r && sc <= b < sc + w ==> !#[trigger] self.is_pre_cut@[self.grid.h_edge_at(a, b)],
            decreases sr + hm - r,
        {
            let mut c = sc;
            while c < sc + w
                invariant
                    self.wf(),
                    sr <= r < sr + hm,
                    hm == (if h > 0 { h - 1 } else { 0 }),
                    sc <= c <= sc + w,
                    sr + h <= self.grid.rows,
                    sc + w <= self.grid.cols,
                    forall|a: int, b: int|
                        (sr <= a < r && sc <= b < sc + w) || (a == r && sc <= b < c) ==> !#[trigger] self.is_pre_cut@[self.grid.h_edge_at(a, b)],
                decreases sc + w - c,
            {
                let e = self.grid.h_edge(r, c);
                if self.is_pre_cut[e] {
                    return false;
                }
                c = c + 1;
            }
            r = r + 1;
        }
        let wm = if w > 0 { w - 1 } else { 0 };
        let mut r = sr;
        while r < sr + h
            invariant
                self.wf(),
                sr <= r <= sr + h,
                wm == (if w > 0 { w - 1 } else { 0 }),
                sr + h <= self.grid.rows,
                sc + w <= self.grid.cols,
                forall|a: int, b: int|
                    sr <= a < r && sc <= b < sc + wm ==> !#[trigger] self.is_pre_cut@[self.grid.v_edge_at(a, b)],
            decreases sr + h - r,
        {
            let mut c = sc;
            while c < sc + wm
                invariant
                    self.wf(),
                    sr <= r < sr + h,
                    wm == (if w > 0 { w - 1 } else { 0 }),
                    sc <= c <= sc + wm,
                    sr + h <= self.grid.rows,
                    sc + w <= self.grid.cols,
                    forall|a: int, b: int|
                        (sr <= a < r && sc <= b < sc + wm) || (a == r && sc <= b < c) ==> !#[trigger] self.is_pre_cut@[self.grid.v_edge_at(a, b)],
                decreases sc + wm - c,
            {
                let e = self.grid.v_edge(r, c);
                if self.is_pre_cut[e] {
                    return false;
                }
                c = c + 1;
            }
            r = r + 1;
        }
        true
    }

    /// Whether a `w` x `h` rectangle fits somewhere on free ground.
    pub fn has_valid_boxy_placement(&self, w: usize, h: usize) -> (r: bool)
        requires
            self.wf(),
        ensures
            r == boxy_placement(self.grid, self.is_pre_cut@, w as int, h as int),
    {
        if w > self.grid.cols || h > self.grid.rows {
            return false;
        }
        let mut sr: usize = 0;
        while sr <= self.grid.rows - h
            invariant
                self.wf(),
                w <= self.grid.cols,
                h <= self.grid.rows,
                sr <= self.grid.rows - h + 1,
                forall|a: int, b: int|
                    0 <= a < sr && 0 <= b <= self.grid.cols - w ==> !#[trigger] rect_free(self.grid, self.is_pre_cut@, a, b, w as int, h as int),
            decreases self.grid.rows - h + 1 - sr,
        {
            proof {
                self.grid.lemma_sizes();
            }
            let mut sc: usize = 0;
            while sc <= self.grid.cols - w
                invariant
                    self.wf(),
                    w <= self.grid.cols,
                    h <= self.grid.rows,
                    sr <= self.grid.rows - h,
                    sc <= self.grid.cols - w + 1,
                    forall|a: int, b: int|
                        (0 <= a < sr && 0 <= b <= self.grid.cols - w) || (a == sr && 0 <= b < sc) ==> !#[trigger] rect_free(self.grid, self.is_pre_cut@, a, b, w as int, h as int),
                decreases self.grid.cols - w + 1 - sc,
            {
                if self.is_rect_precut_free(sr, sc, w, h) {
                    return true;
                }
                sc = sc + 1;
            }
            sr = sr + 1;
        }
        false
    }
}


/// Number of `true` entries among the first `k`.
pub open spec fn trues(s: Seq<bool>, k: int) -> nat
    decreases k,
{
    if k <= 0 {
        0
    } else {
        trues(s, k - 1) + if s[k - 1] {
            1nat
        } else {
            0nat
        }
    }
}

pub proof fn lemma_trues_bound(s: Seq<bool>, k: int)
    requires
        0 <= k,
    ensures
        trues(s, k) <= k,
    decreases k,
{
    if k > 0 {
        lemma_trues_bound(s, k - 1);
    }
}

proof fn lemma_trues_set(s: Seq<bool>, x: int, k: int)
    requires
        0 <= x < s.len(),
        !s[x],
        0 <= k <= s.len(),
    ensures
        trues(s.update(x, true), k) == trues(s, k) + if x < k {
            1nat
        } else {
            0nat
        },
    decreases k,
{
    if k > 0 {
        lemma_trues_set(s, x, k - 1);
    }
}

/// The two cell lists are equal.
fn cells_equal(a: &Vec<(i32, i32)>, b: &Vec<(i32, i32)>) -> (r: bool)
    ensures
        r == (a@ == b@),
{
    if a.len() != b.len() {
        return false;
    }
    let mut i: usize = 0;
    while i < a.len()
        invariant
            i <= a@.len() == b@.len(),
            forall|j: int| 0 <= j < i ==> a@[j] == b@[j],
        decreases a@.len() - i,
    {
        if a[i].0 != b[i].0 || a[i].1 != b[i].1 {
            return false;
        }
        i = i + 1;
    }
    assert(a@ =~= b@);
    true
}

/// Whether `cells` is among `seen`.
fn cells_seen(seen: &Vec<Vec<(i32, i32)>>, cells: &Vec<(i32, i32)>) -> (r: bool)
    ensures
        r == exists|k: int| 0 <= k < seen@.len() && (#[trigger] seen@[k])@ == cells@,
{
    let mut k: usize = 0;
    while k < seen.len()
        invariant
            k <= seen@.len(),
            forall|j: int| 0 <= j < k ==> (#[trigger] seen@[j])@ != cells@,
        decreases seen@.len() - k,
    {
        if cells_equal(&seen[k], cells) {
            return true;
        }
        k = k + 1;
    }
    false
}

fn copy_cells(cells: &Vec<(i32, i32)>) -> (out: Vec<(i32, i32)>)
    ensures
        out@ == cells@,
{
    let mut out: Vec<(i32, i32)> = Vec::new();
    let mut i: usize = 0;
    while i < cells.len()
        invariant
            i <= cells@.len(),
            out@ == cells@.take(i as int),
        decreases cells@.len() - i,
    {
        out.push(cells[i]);
        proof {
            assert(cells@.take(i + 1) =~= cells@.take(i as int).push(cells@[i as int]));
        }
        i = i + 1;
    }
    proof {
        assert(cells@.take(cells@.len() as int) =~= cells@);
    }
    out
}

/// The shapes added to the bank have pairwise different cells.
pub open spec fn distinct_cells(bank: Seq<Shape>, from: int) -> bool {
    forall|i: int, j: int|
        from <= i < bank.len() && from <= j < bank.len() && i != j ==> #[trigger] bank[i].cells@
            != #[trigger] bank[j].cells@
}

/// A free polyomino of a size in `lo..=hi`, in canonical form.
pub open spec fn canonical_in(s: Shape, lo: int, hi: int) -> bool {
    exists|n: int| lo <= n <= hi && #[trigger] canonical_of_size(s@, n)
}

/// The shape fills its bounding box.
pub open spec fn rectangular(s: Shape) -> bool {
    s.cells@.len() > 0 && s.height * s.width == s.cells@.len()
}

impl Solver {
    /// The fields that filling the shape bank leaves alone.
    pub open spec fn same_but_bank(&self, o: &Solver) -> bool {
        &&& self.puzzle.cell_clues == o.puzzle.cell_clues
        &&& self.puzzle.edge_clues == o.puzzle.edge_clues
        &&& self.puzzle.vertex_clues == o.puzzle.vertex_clues
        &&& self.grid == o.grid
        &&& self.edges == o.edges
        &&& self.changed == o.changed
        &&& self.is_pre_cut == o.is_pre_cut
        &&& self.total_cells == o.total_cells
        &&& self.eff_min_area == o.eff_min_area
    }

    /// The cells of the bank entries from `start` on, in order.
    pub open spec fn seen_matches(&self, seen: Seq<Vec<(i32, i32)>>, start: int) -> bool {
        &&& 0 <= start <= self.puzzle.rules.shape_bank@.len()
        &&& seen.len() == self.puzzle.rules.shape_bank@.len() - start
        &&& forall|i: int| 0 <= i < seen.len() ==> (#[trigger] seen[i])@ == self.puzzle.rules.shape_bank@[start + i].cells@
        &&& distinct_cells(self.puzzle.rules.shape_bank@, start)
    }

    /// Adds `shape` to the bank unless a shape with the same cells was added.
    fn push_unseen(&mut self, seen: &mut Vec<Vec<(i32, i32)>>, shape: Shape, Ghost(start): Ghost<int>)
        requires
            old(self).seen_matches(old(seen)@, start),
        ensures
            final(self).seen_matches(final(seen)@, start),
            final(self).same_but_bank(old(self)),
            final(self).eff_max_area == old(self).eff_max_area,
            (exists|k: int| 0 <= k < old(seen)@.len() && (#[trigger] old(seen)@[k])@ == shape.cells@) ==> {
                &&& final(self).puzzle.rules.shape_bank@ == old(self).puzzle.rules.shape_bank@
                &&& final(seen)@ == old(seen)@
            },
            !(exists|k: int| 0 <= k < old(seen)@.len() && (#[trigger] old(seen)@[k])@ == shape.cells@) ==> {
                &&& final(self).puzzle.rules.shape_bank@ == old(self).puzzle.rules.shape_bank@.push(shape)
                &&& final(seen)@.len() == old(seen)@.len() + 1
            },
            exists|i: int|
                start <= i < final(self).puzzle.rules.shape_bank@.len() && (#[trigger] final(self).puzzle.rules.shape_bank@[i]).cells@ == shape.cells@,
    {
        proof {
            if exists|k: int| 0 <= k < seen@.len() && (#[trigger] seen@[k])@ == shape.cells@ {
                let k = choose|k: int| 0 <= k < seen@.len() && (#[trigger] seen@[k])@ == shape.cells@;
                assert(self.puzzle.rules.shape_bank@[start + k].cells@ == shape.cells@);
            }
        }
        if !cells_seen(seen, &shape.cells) {
            let ghost bank0 = self.puzzle.rules.shape_bank@;
            seen.push(copy_cells(&shape.cells));
            self.puzzle.rules.shape_bank.push(shape);
            proof {
                let bank = self.puzzle.rules.shape_bank@;
                assert forall|i: int, j: int|
                    start <= i < bank.len() && start <= j < bank.len() && i != j implies #[trigger] bank[i].cells@
                        != #[trigger] bank[j].cells@ by {
                    if i == bank.len() - 1 {
                        assert(seen@[j - start]@ == bank[j].cells@);
                    } else if j == bank.len() - 1 {
                        assert(seen@[i - start]@ == bank[i].cells@);
                    } else {
                        assert(bank0[i] == bank[i] && bank0[j] == bank[j]);
                    }
                }
                assert(bank[bank.len() - 1].cells@ == shape.cells@);
            }
        }
    }

    /// The largest group of existing cells that edges not cut by the drawing
    /// join together.
    fn max_non_precut_component_size(&self) -> (m: usize)
        requires
            self.wf(),
        ensures
            m <= self.grid.n_cells(),
    {
        proof {
            self.grid.lemma_sizes();
        }
        let n = self.grid.num_cells();
        let mut visited: Vec<bool> = vec![false; n];
        let mut nvis: usize = 0;
        let mut max_size: usize = 0;
        let mut start: usize = 0;
        proof {
            assert(trues(visited@, n as int) == 0) by {
                lemma_trues_zero(visited@, n as int);
            }
        }
        while start < n
            invariant
                self.wf(),
                n == self.grid.n_cells(),
                visited@.len() == n,
                nvis == trues(visited@, n as int),
                max_size <= nvis,
                start <= n,
            decreases n - start,
        {
            if !self.grid.cell_exists[start] || visited[start] {
                start = start + 1;
                continue;
            }
            let mut size: usize = 0;
            let ghost nvis0 = nvis;
            proof {
                lemma_trues_set(visited@, start as int, n as int);
                lemma_trues_bound(visited@.update(start as int, true), n as int);
            }
            visited.set(start, true);
            nvis = nvis + 1;
            let mut stack: Vec<usize> = Vec::new();
            stack.push(start);
            while stack.len() > 0
                invariant
                    self.wf(),
                    n == self.grid.n_cells(),
                    visited@.len() == n,
                    nvis == trues(visited@, n as int),
                    nvis <= n,
                    size + stack@.len() == nvis - nvis0,
                    forall|k: int| 0 <= k < stack@.len() ==> (#[trigger] stack@[k]) < n,
                decreases 2 * (n - nvis) + stack@.len(),
            {
                let ghost m0 = 2 * (n - nvis) + stack@.len();
                let cur = stack.pop().unwrap();
                size = size + 1;
                let ne = self.grid.cell_edges(cur).into_array();
                let mut k: usize = 0;
                while k < 4
                    invariant
                        self.wf(),
                        n == self.grid.n_cells(),
                        visited@.len() == n,
                        nvis == trues(visited@, n as int),
                        nvis <= n,
                        size + stack@.len() == nvis - nvis0,
                        forall|t: int| 0 <= t < stack@.len() ==> (#[trigger] stack@[t]) < n,
                        forall|t: int| 0 <= t < 4 ==> (#[trigger] ne@[t] matches Some(x) ==> x < self.grid.n_edges()),
                        k <= 4,
                        2 * (n - nvis) + stack@.len() < m0,
                    decreases 4 - k,
                {
                    if let Some(eid) = ne[k] {
                        if !self.is_pre_cut[eid] {
                            let (c1, c2) = self.grid.edge_cells(eid);
                            let other = if c1 == cur { c2 } else { c1 };
                            if self.grid.cell_exists[other] && !visited[other] {
                                proof {
                                    lemma_trues_set(visited@, other as int, n as int);
                                    lemma_trues_bound(visited@.update(other as int, true), n as int);
                                }
                                visited.set(other, true);
                                nvis = nvis + 1;
                                stack.push(other);
                            }
                        }
                    }
                    k = k + 1;
                }
            }
            if size > max_size {
                max_size = size;
            }
            start = start + 1;
        }
        proof {
            lemma_trues_bound(visited@, n as int);
        }
        max_size
    }
}

proof fn lemma_trues_zero(s: Seq<bool>, k: int)
    requires
        0 <= k <= s.len(),
        forall|i: int| 0 <= i < s.len() ==> !s[i],
    ensures
        trues(s, k) == 0,
    decreases k,
{
    if k > 0 {
        lemma_trues_zero(s, k - 1);
    }
}


impl Solver {
    /// General rules: every free polyomino with a size in the area bounds,
    /// when the largest size is at most 5.
    fn populate_general(&mut self)
        requires
            old(self).puzzle.rules.shape_bank@.len() == 0,
        ensures
            final(self).same_but_bank(old(self)),
            final(self).eff_max_area == old(self).eff_max_area,
            old(self).eff_max_area > 5 || old(self).eff_max_area < 1 ==> final(self).puzzle.rules.shape_bank@.len() == 0,
            forall|i: int|
                0 <= i < final(self).puzzle.rules.shape_bank@.len() ==> canonical_in(
                    #[trigger] final(self).puzzle.rules.shape_bank@[i],
                    old(self).eff_min_area as int,
                    old(self).eff_max_area as int,
                ),
            distinct_cells(final(self).puzzle.rules.shape_bank@, 0),
    {
        if self.eff_max_area > 5 || self.eff_max_area < 1 {
            return;
        }
        let lo = self.eff_min_area;
        let hi = self.eff_max_area;
        let mut seen: Vec<Vec<(i32, i32)>> = Vec::new();
        let mut size = lo;
        while size <= hi
            invariant
                hi <= 5,
                lo <= size,
                lo == old(self).eff_min_area,
                hi == old(self).eff_max_area,
                self.same_but_bank(old(self)),
                self.eff_max_area == old(self).eff_max_area,
                self.seen_matches(seen@, 0),
                forall|i: int|
                    0 <= i < self.puzzle.rules.shape_bank@.len() ==> canonical_in(
                        #[trigger] self.puzzle.rules.shape_bank@[i],
                        lo as int,
                        hi as int,
                    ),
            decreases hi + 1 - size,
        {
            let shapes = polyomino::enumerate_free_polyominoes(size);
            let mut i: usize = 0;
            while i < shapes.len()
                invariant
                    lo <= size <= hi <= 5,
                    lo == old(self).eff_min_area,
                    hi == old(self).eff_max_area,
                    self.same_but_bank(old(self)),
                    self.eff_max_area == old(self).eff_max_area,
                    self.seen_matches(seen@, 0),
                    polyomino::good_results(shapes@, size as int),
                    forall|j: int|
                        0 <= j < self.puzzle.rules.shape_bank@.len() ==> canonical_in(
                            #[trigger] self.puzzle.rules.shape_bank@[j],
                            lo as int,
                            hi as int,
                        ),
                decreases shapes@.len() - i,
            {
                let shape = polyomino::copy_shape(&shapes[i]);
                proof {
                    assert(canonical_of_size(shapes@[i as int]@, size as int));
                    assert(canonical_of_size(shape@, size as int));
                }
                self.push_unseen(&mut seen, shape, Ghost(0));
                i = i + 1;
            }
            size = size + 1;
        }
    }

    /// Non-boxy rules: the free polyominoes with a size in the area bounds
    /// (at most 8) that do not fill their bounding box.
    fn populate_non_boxy(&mut self)
        requires
            old(self).puzzle.rules.shape_bank@.len() == 0,
        ensures
            final(self).same_but_bank(old(self)),
            final(self).eff_max_area == old(self).eff_max_area,
            forall|i: int|
                0 <= i < final(self).puzzle.rules.shape_bank@.len() ==> canonical_in(
                    #[trigger] final(self).puzzle.rules.shape_bank@[i],
                    old(self).eff_min_area as int,
                    min_usize(old(self).eff_max_area, 8) as int,
                ) && !rectangular(final(self).puzzle.rules.shape_bank@[i]),
            distinct_cells(final(self).puzzle.rules.shape_bank@, 0),
    {
        let max_size = if self.eff_max_area < 8 { self.eff_max_area } else { 8 };
        let lo = self.eff_min_area;
        if max_size < lo || lo < 1 {
            return;
        }
        let mut seen: Vec<Vec<(i32, i32)>> = Vec::new();
        let mut size = lo;
        while size <= max_size
            invariant
                max_size == min_usize(old(self).eff_max_area, 8),
                lo <= size,
                lo == old(self).eff_min_area,
                self.same_but_bank(old(self)),
                self.eff_max_area == old(self).eff_max_area,
                self.seen_matches(seen@, 0),
                forall|i: int|
                    0 <= i < self.puzzle.rules.shape_bank@.len() ==> canonical_in(
                        #[trigger] self.puzzle.rules.shape_bank@[i],
                        lo as int,
                        max_size as int,
                    ) && !rectangular(self.puzzle.rules.shape_bank@[i]),
            decreases max_size + 1 - size,
        {
            let shapes = polyomino::enumerate_free_polyominoes(size);
            let mut i: usize = 0;
            while i < shapes.len()
                invariant
                    lo <= size <= max_size <= 8,
                    max_size == min_usize(old(self).eff_max_area, 8),
                    lo == old(self).eff_min_area,
                    self.same_but_bank(old(self)),
                    self.eff_max_area == old(self).eff_max_area,
                    self.seen_matches(seen@, 0),
                    polyomino::good_results(shapes@, size as int),
                    forall|j: int|
                        0 <= j < self.puzzle.rules.shape_bank@.len() ==> canonical_in(
                            #[trigger] self.puzzle.rules.shape_bank@[j],
                            lo as int,
                            max_size as int,
                        ) && !rectangular(self.puzzle.rules.shape_bank@[j]),
                decreases shapes@.len() - i,
            {
                let shape = polyomino::copy_shape(&shapes[i]);
                proof {
                    assert(canonical_of_size(shapes@[i as int]@, size as int));
                    assert(canonical_of_size(shape@, size as int));
                }
                proof {
                    let h = shape.height as int;
                    let w = shape.width as int;
                    assert(-0x4000_0000_0000_0000 <= h * w <= 0x4000_0000_0000_0000) by (nonlinear_arith)
                        requires
                            -0x8000_0000 <= h <= 0x7fff_ffff,
                            -0x8000_0000 <= w <= 0x7fff_ffff,
                    ;
                }
                let area: i64 = (shape.height as i64) * (shape.width as i64);
                // An area outside the range of `i32` is no polyomino's bounding box.
                let rect = if area >= 0 && area <= 0x7fff_ffff {
                    polyomino::is_rectangular_shape(&shape)
                } else {
                    shape.cells.len() > 0 && (area as i128) == (shape.cells.len() as i128)
                };
                assert(rect == rectangular(shape));
                if !rect {
                    self.push_unseen(&mut seen, shape, Ghost(0));
                }
                i = i + 1;
            }
            size = size + 1;
        }
    }
}


/// The cells of an `h` x `w` rectangle, row by row.
fn rect_cells_exec(h: usize, w: usize) -> (cells: Vec<(i32, i32)>)
    requires
        h <= i32::MAX,
        w <= i32::MAX,
        h * w <= usize::MAX,
    ensures
        cells@ == rect_cells(h as int, w as int),
        polyomino::spread_ok(cells@),
{
    let mut cells: Vec<(i32, i32)> = Vec::new();
    let mut r: usize = 0;
    while r < h
        invariant
            r <= h <= i32::MAX,
            w <= i32::MAX,
            h * w <= usize::MAX,
            cells@ == rect_cells(h as int, w as int).take(r * w),
            r * w <= h * w,
        decreases h - r,
    {
        proof {
            assert((r + 1) * w <= h * w) by (nonlinear_arith)
                requires
                    r + 1 <= h,
                    w >= 0,
            ;
        }
        let mut c: usize = 0;
        while c < w
            invariant
                r < h <= i32::MAX,
                c <= w <= i32::MAX,
                h * w <= usize::MAX,
                (r + 1) * w <= h * w,
                cells@ == rect_cells(h as int, w as int).take(r * w + c),
            decreases w - c,
        {
            proof {
                crate::grid::lemma_index_div_mod(r as int, c as int, w as int);
                assert((r + 1) * w == r * w + w) by (nonlinear_arith);
                assert(r * w + c < h * w);
                assert(rect_cells(h as int, w as int)[r * w + c] == (r as i32, c as i32));
                assert(rect_cells(h as int, w as int).take(r * w + c + 1) =~= rect_cells(h as int, w as int).take(
                    r * w + c,
                ).push((r as i32, c as i32)));
                assert((r + 1) * w == r * w + w) by (nonlinear_arith);
            }
            cells.push((r as i32, c as i32));
            c = c + 1;
        }
        proof {
            assert((r + 1) * w == r * w + w) by (nonlinear_arith);
            if r + 1 < h {
                assert((r + 2) * w <= h * w) by (nonlinear_arith)
                    requires
                        r + 2 <= h,
                        w >= 0,
                ;
            }
        }
        r = r + 1;
    }
    proof {
        assert(rect_cells(h as int, w as int).take(h * w) =~= rect_cells(h as int, w as int));
        assert forall|i: int, j: int|
            #![trigger cells@[i], cells@[j]]
            0 <= i < cells@.len() && 0 <= j < cells@.len() implies cells@[i].0 - cells@[j].0 < i32::MAX
                && cells@[i].1 - cells@[j].1 < i32::MAX by {
            assert(0 <= i / (w as int) < h) by (nonlinear_arith)
                requires
                    0 <= i < h * w,
                    w > 0,
            ;
            assert(0 <= j / (w as int) < h) by (nonlinear_arith)
                requires
                    0 <= j < h * w,
                    w > 0,
            ;
        }
    }
    cells
}

/// A rectangle of `h` x `w` cells, `w <= h`, whose area lies in `lo..=hi`,
/// and that fits on free ground one way or the other.
pub open spec fn boxy_shape(g: Grid, pre: Seq<bool>, s: Shape, lo: int, hi: int) -> bool {
    exists|h: int, w: int|
        1 <= w <= h && lo <= h * w <= hi && (boxy_placement(g, pre, w, h) || boxy_placement(g, pre, h, w))
            && s@ == #[trigger] shape_of(rect_cells(h, w))
}

/// An `h` x `w` rectangle, `w <= h`, that fits on free ground one way or the other.
pub open spec fn boxy_wanted(g: Grid, pre: Seq<bool>, h: int, w: int) -> bool {
    1 <= w <= h && (boxy_placement(g, pre, w, h) || boxy_placement(g, pre, h, w))
}

/// Some shape of the bank has the cells of the `h` x `w` rectangle.
pub open spec fn rect_in_bank(bank: Seq<Shape>, h: int, w: int) -> bool {
    exists|i: int| 0 <= i < bank.len() && (#[trigger] bank[i]).cells@ == shape_of(rect_cells(h, w)).2
}

/// A bank that only grew keeps its rectangles.
proof fn lemma_bank_kept(b1: Seq<Shape>, b2: Seq<Shape>)
    requires
        b1.len() <= b2.len(),
        forall|i: int| 0 <= i < b1.len() ==> b2[i] == b1[i],
    ensures
        forall|h: int, w: int| #[trigger] rect_in_bank(b1, h, w) ==> rect_in_bank(b2, h, w),
{
    assert forall|h: int, w: int| #[trigger] rect_in_bank(b1, h, w) implies rect_in_bank(b2, h, w) by {
        let i = choose|i: int| 0 <= i < b1.len() && (#[trigger] b1[i]).cells@ == shape_of(rect_cells(h, w)).2;
        assert(b2[i] == b1[i]);
    }
}

/// The only height of an `h` x `w` rectangle of `size` cells.
proof fn lemma_exact_height(size: int, w: int, h: int)
    requires
        w > 0,
        h * w == size,
    ensures
        size % w == 0,
        size / w == h,
{
    vstd::arithmetic::div_mod::lemma_fundamental_div_mod_converse(size, w, h, 0);
}

impl Solver {
    /// Boxy rules: the rectangles with an area in the bounds (at most the
    /// number of cells) that fit somewhere on free ground.
    fn populate_boxy(&mut self)
        requires
            old(self).wf(),
            old(self).puzzle.rules.shape_bank@.len() == 0,
            old(self).grid.rows <= i32::MAX,
            old(self).grid.cols <= i32::MAX,
        ensures
            final(self).same_but_bank(old(self)),
            final(self).eff_max_area == old(self).eff_max_area,
            forall|i: int|
                0 <= i < final(self).puzzle.rules.shape_bank@.len() ==> boxy_shape(
                    old(self).grid,
                    old(self).is_pre_cut@,
                    #[trigger] final(self).puzzle.rules.shape_bank@[i],
                    old(self).eff_min_area as int,
                    min_usize(old(self).eff_max_area, old(self).total_cells) as int,
                ),
            distinct_cells(final(self).puzzle.rules.shape_bank@, 0),
            old(self).eff_min_area >= 1 ==> forall|h: int, w: int|
                #[trigger] boxy_wanted(old(self).grid, old(self).is_pre_cut@, h, w) && old(self).eff_min_area <= h * w
                    <= min_usize(old(self).eff_max_area, old(self).total_cells) ==> rect_in_bank(
                    final(self).puzzle.rules.shape_bank@,
                    h,
                    w,
                ),
    {
        let max_size = if self.eff_max_area < self.total_cells { self.eff_max_area } else { self.total_cells };
        let lo = self.eff_min_area;
        if max_size < lo || lo < 1 {
            return;
        }
        let ghost g = self.grid;
        let ghost pre = self.is_pre_cut@;
        let mut seen: Vec<Vec<(i32, i32)>> = Vec::new();
        let mut size = lo;
        loop
            invariant
                g == old(self).grid,
                pre == old(self).is_pre_cut@,
                forall|h: int, w: int|
                    #[trigger] boxy_wanted(g, pre, h, w) && lo <= h * w < size ==> rect_in_bank(
                        self.puzzle.rules.shape_bank@,
                        h,
                        w,
                    ),
                1 <= lo <= size <= max_size,
                max_size == min_usize(old(self).eff_max_area, old(self).total_cells),
                lo == old(self).eff_min_area,
                self.wf(),
                self.same_but_bank(old(self)),
                self.eff_max_area == old(self).eff_max_area,
                self.grid.rows <= i32::MAX,
                self.grid.cols <= i32::MAX,
                self.seen_matches(seen@, 0),
                forall|i: int|
                    0 <= i < self.puzzle.rules.shape_bank@.len() ==> boxy_shape(
                        old(self).grid,
                        old(self).is_pre_cut@,
                        #[trigger] self.puzzle.rules.shape_bank@[i],
                        lo as int,
                        max_size as int,
                    ),
            ensures
                forall|h: int, w: int|
                    #[trigger] boxy_wanted(g, pre, h, w) && lo <= h * w <= max_size ==> rect_in_bank(
                        self.puzzle.rules.shape_bank@,
                        h,
                        w,
                    ),
            decreases max_size - size,
        {
            let mut w: usize = 1;
            loop
                invariant
                    g == old(self).grid,
                    pre == old(self).is_pre_cut@,
                    forall|h2: int, w2: int|
                        #[trigger] boxy_wanted(g, pre, h2, w2) && (lo <= h2 * w2 < size || (h2 * w2 == size && w2 < w))
                            ==> rect_in_bank(self.puzzle.rules.shape_bank@, h2, w2),
                    1 <= lo <= size <= max_size,
                    1 <= w <= size,
                    max_size == min_usize(old(self).eff_max_area, old(self).total_cells),
                    lo == old(self).eff_min_area,
                        self.wf(),
                    self.same_but_bank(old(self)),
                    self.eff_max_area == old(self).eff_max_area,
                    self.grid.rows <= i32::MAX,
                    self.grid.cols <= i32::MAX,
                    self.seen_matches(seen@, 0),
                    forall|i: int|
                        0 <= i < self.puzzle.rules.shape_bank@.len() ==> boxy_shape(
                            old(self).grid,
                            old(self).is_pre_cut@,
                            #[trigger] self.puzzle.rules.shape_bank@[i],
                            lo as int,
                            max_size as int,
                        ),
                ensures
                    forall|h2: int, w2: int|
                        #[trigger] boxy_wanted(g, pre, h2, w2) && lo <= h2 * w2 <= size ==> rect_in_bank(
                            self.puzzle.rules.shape_bank@,
                            h2,
                            w2,
                        ),
                decreases size - w,
            {
                let ghost bank0 = self.puzzle.rules.shape_bank@;
                if size % w == 0 {
                    let h = size / w;
                    proof {
                        assert(h * w == size) by (nonlinear_arith)
                            requires
                                size % w == 0,
                                h == size / w,
                                w > 0,
                        ;
                    }
                    if w <= h {
                        let fits = self.has_valid_boxy_placement(w, h) || (w != h && self.has_valid_boxy_placement(h, w));
                        if fits {
                            let cells = rect_cells_exec(h, w);
                            let shape = polyomino::make_shape(&cells);
                            proof {
                                assert(boxy_shape(old(self).grid, old(self).is_pre_cut@, shape, lo as int, max_size as int));
                            }
                            self.push_unseen(&mut seen, shape, Ghost(0));
                            proof {
                                lemma_bank_kept(bank0, self.puzzle.rules.shape_bank@);
                                assert(shape.cells@ == shape_of(rect_cells(h as int, w as int)).2);
                                assert(rect_in_bank(self.puzzle.rules.shape_bank@, h as int, w as int));
                            }
                        }
                    }
                }
                proof {
                    assert forall|h2: int, w2: int|
                        #[trigger] boxy_wanted(g, pre, h2, w2) && (lo <= h2 * w2 < size || (h2 * w2 == size && w2
                            < w + 1)) implies rect_in_bank(self.puzzle.rules.shape_bank@, h2, w2) by {
                        if w2 == w && h2 * w2 == size {
                            lemma_exact_height(size as int, w as int, h2);
                        } else {
                            assert(rect_in_bank(bank0, h2, w2));
                            lemma_bank_kept(bank0, self.puzzle.rules.shape_bank@);
                        }
                    }
                    assert forall|h2: int, w2: int|
                        #[trigger] boxy_wanted(g, pre, h2, w2) && h2 * w2 == size implies w2 <= size by {
                        assert(w2 <= h2 * w2) by (nonlinear_arith)
                            requires
                                h2 >= 1,
                                w2 >= 1,
                        ;
                    }
                }
                if w == size {
                    break;
                }
                w = w + 1;
            }
            if size == max_size {
                break;
            }
            size = size + 1;
        }
    }

    /// Fills an empty shape bank from the rules, after capping the largest
    /// area at the largest group of cells that the drawing leaves joined.
    pub fn auto_populate_shape_bank(&mut self)
        requires
            old(self).wf(),
            old(self).grid.rows <= i32::MAX,
            old(self).grid.cols <= i32::MAX,
        ensures
            final(self).wf(),
            final(self).same_but_bank(old(self)),
            old(self).puzzle.rules.shape_bank@.len() > 0 ==> final(self).puzzle.rules.shape_bank
                == old(self).puzzle.rules.shape_bank && final(self).eff_max_area == old(self).eff_max_area,
            old(self).puzzle.rules.shape_bank@.len() == 0 ==> {
                let lo = old(self).eff_min_area as int;
                let hi = final(self).eff_max_area as int;
                let bank = final(self).puzzle.rules.shape_bank@;
                &&& final(self).eff_max_area <= old(self).eff_max_area
                &&& final(self).eff_max_area == old(self).eff_max_area || final(self).eff_max_area
                    <= old(self).grid.n_cells()
                &&& distinct_cells(bank, 0)
                &&& old(self).puzzle.rules.boxy && old(self).eff_min_area >= 1 ==> forall|h: int, w: int|
                    #[trigger] boxy_wanted(old(self).grid, old(self).is_pre_cut@, h, w) && lo <= h * w <= min_usize(
                        final(self).eff_max_area,
                        old(self).total_cells,
                    ) ==> rect_in_bank(bank, h, w)
                &&& old(self).puzzle.rules.boxy ==> forall|i: int|
                    0 <= i < bank.len() ==> boxy_shape(
                        old(self).grid,
                        old(self).is_pre_cut@,
                        #[trigger] bank[i],
                        lo,
                        min_usize(final(self).eff_max_area, old(self).total_cells) as int,
                    )
                &&& !old(self).puzzle.rules.boxy && old(self).puzzle.rules.non_boxy ==> forall|i: int|
                    0 <= i < bank.len() ==> canonical_in(#[trigger] bank[i], lo, min_usize(final(self).eff_max_area, 8) as int)
                        && !rectangular(bank[i])
                &&& !old(self).puzzle.rules.boxy && !old(self).puzzle.rules.non_boxy ==> (hi > 5 || hi < 1
                    ==> bank.len() == 0) && forall|i: int| 0 <= i < bank.len() ==> canonical_in(#[trigger] bank[i], lo, hi)
            },
    {
        if self.puzzle.rules.shape_bank.len() > 0 {
            return;
        }
        let max_comp = self.max_non_precut_component_size();
        if self.eff_max_area > max_comp {
            self.eff_max_area = max_comp;
        }
        if self.puzzle.rules.boxy {
            self.populate_boxy();
        } else if self.puzzle.rules.non_boxy {
            self.populate_non_boxy();
        } else {
            self.populate_general();
        }
    }
}

} // verus!
