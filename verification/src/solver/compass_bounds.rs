//! The area that a compass clue allows its piece.
use vstd::prelude::*;
use super::Solver;
use crate::grid::{lemma_div_mod_in_box, lemma_index_in_box, Grid};
use crate::types::{CellId, CompassData};

verus! {

/// Some cell of column `c` above row `r` exists.
pub open spec fn cell_north(g: Grid, r: int, c: int) -> bool {
    exists|nr: int| 0 <= nr < r && #[trigger] g.cell_exists@[g.cell_at(nr, c)]
}

/// Some cell of column `c` below row `r` exists.
pub open spec fn cell_south(g: Grid, r: int, c: int) -> bool {
    exists|nr: int| r < nr < g.rows && #[trigger] g.cell_exists@[g.cell_at(nr, c)]
}

/// Some cell of row `r` right of column `c` exists.
pub open spec fn cell_east(g: Grid, r: int, c: int) -> bool {
    exists|nc: int| c < nc < g.cols && #[trigger] g.cell_exists@[g.cell_at(r, nc)]
}

/// Some cell of row `r` left of column `c` exists.
pub open spec fn cell_west(g: Grid, r: int, c: int) -> bool {
    exists|nc: int| 0 <= nc < c && #[trigger] g.cell_exists@[g.cell_at(r, nc)]
}

/// A direction's count as given, or 0 where no cell lies that way.
pub open spec fn dir_value(given: Option<usize>, has_cell: bool) -> Option<usize> {
    match given {
        Some(v) => Some(v),
        None => if has_cell {
            None
        } else {
            Some(0)
        },
    }
}

/// The count, or 0 when unknown.
pub open spec fn or_zero(o: Option<usize>) -> int {
    match o {
        Some(v) => v as int,
        None => 0,
    }
}

/// The counts of a compass clue at cell `cell`, a direction with no cell
/// that way counting 0: (north, south, east, west).
pub open spec fn compass_dirs(g: Grid, cell: int, cd: CompassData) -> (
    Option<usize>,
    Option<usize>,
    Option<usize>,
    Option<usize>,
) {
    let r = cell / g.cols as int;
    let c = cell % g.cols as int;
    (
        dir_value(cd.n, cell_north(g, r, c)),
        dir_value(cd.s, cell_south(g, r, c)),
        dir_value(cd.e, cell_east(g, r, c)),
        dir_value(cd.w, cell_west(g, r, c)),
    )
}

/// The area bounds of a compass clue's piece: at least the cell itself and
/// the longer of its north-south and east-west reaches; at most everything
/// counted when all four counts are known; exactly the north-south (or
/// east-west) reach when nothing lies east and west (or north and south).
pub open spec fn compass_bounds(g: Grid, cell: int, cd: CompassData) -> (int, Option<int>, Option<int>) {
    let (n, s, e, w) = compass_dirs(g, cell, cd);
    let nv = or_zero(n);
    let sv = or_zero(s);
    let ev = or_zero(e);
    let wv = or_zero(w);
    let min = 1 + if nv + sv >= ev + wv {
        nv + sv
    } else {
        ev + wv
    };
    let max = if n is Some && s is Some && e is Some && w is Some {
        Some(1 + nv + sv + ev + wv)
    } else {
        None
    };
    let exact = if e == Some(0usize) && w == Some(0usize) {
        Some(1 + nv + sv)
    } else if n == Some(0usize) && s == Some(0usize) {
        Some(1 + ev + wv)
    } else {
        None
    };
    (min, max, exact)
}

/// Facts about the grid's sizes that the direction scans need.
proof fn lemma_scan_sizes(g: Grid)
    requires
        g.wf(),
    ensures
        g.n_cells() <= usize::MAX,
        g.rows + g.rows <= usize::MAX,
        g.cols + g.cols <= usize::MAX,
{
    g.lemma_sizes();
    assert(2 * (g.rows + 1) <= 2 * (g.rows + 1) * (g.cols + 1)) by (nonlinear_arith);
    assert(2 * (g.cols + 1) <= 2 * (g.rows + 1) * (g.cols + 1)) by (nonlinear_arith);
}

impl Solver {
    /// Whether some cell of column `c` above row `r` exists.
    #[verifier::spinoff_prover]
    fn scan_north(&self, r: usize, c: usize) -> (b: bool)
        requires
            self.grid.wf(),
            r < self.grid.rows,
            c < self.grid.cols,
        ensures
            b == cell_north(self.grid, r as int, c as int),
    {
        let ghost g = self.grid;
        proof {
            lemma_scan_sizes(g);
        }
        let rows = self.grid.rows;
        let cols = self.grid.cols;
        let mut found = false;
        let mut dr: usize = 1;
        while dr < rows && dr <= r && !found
            invariant
                g == self.grid,
                g.wf(),
                g.n_cells() <= usize::MAX,
                rows == g.rows,
                cols == g.cols,
                r < rows,
                c < cols,
                1 <= dr,
                !found ==> forall|nr: int| r - dr < nr < r ==> !#[trigger] g.cell_exists@[g.cell_at(nr, c as int)],
                found ==> cell_north(g, r as int, c as int),
            decreases rows - dr,
        {
            let nr = r - dr;
            proof {
                lemma_index_in_box(nr as int, c as int, rows as int, cols as int);
            }
            let nid = self.grid.cell_id(nr, c);
            if self.grid.cell_exists[nid] {
                found = true;
            }
            dr = dr + 1;
        }
        proof {
            if !found {
                assert forall|nr: int| 0 <= nr < r implies !#[trigger] g.cell_exists@[g.cell_at(nr, c as int)] by {
                }
            }
        }
        found
    }

    /// Whether some cell of column `c` below row `r` exists.
    #[verifier::spinoff_prover]
    fn scan_south(&self, r: usize, c: usize) -> (b: bool)
        requires
            self.grid.wf(),
            r < self.grid.rows,
            c < self.grid.cols,
        ensures
            b == cell_south(self.grid, r as int, c as int),
    {
        let ghost g = self.grid;
        proof {
            lemma_scan_sizes(g);
        }
        let rows = self.grid.rows;
        let cols = self.grid.cols;
        let mut found = false;
        let mut dr: usize = 1;
        while dr < rows && r + dr < rows && !found
            invariant
                g == self.grid,
                g.wf(),
                g.n_cells() <= usize::MAX,
                rows + rows <= usize::MAX,
                rows == g.rows,
                cols == g.cols,
                r < rows,
                c < cols,
                1 <= dr,
                !found ==> forall|nr: int| r < nr < r + dr ==> !#[trigger] g.cell_exists@[g.cell_at(nr, c as int)],
                found ==> cell_south(g, r as int, c as int),
            decreases rows - dr,
        {
            let sr = r + dr;
            proof {
                lemma_index_in_box(sr as int, c as int, rows as int, cols as int);
            }
            let sid = self.grid.cell_id(sr, c);
            if self.grid.cell_exists[sid] {
                found = true;
            }
            dr = dr + 1;
        }
        proof {
            if !found {
                assert forall|nr: int| r < nr < rows implies !#[trigger] g.cell_exists@[g.cell_at(nr, c as int)] by {
                }
            }
        }
        found
    }

    /// Whether some cell of row `r` right of column `c` exists.
    #[verifier::spinoff_prover]
    fn scan_east(&self, r: usize, c: usize) -> (b: bool)
        requires
            self.grid.wf(),
            r < self.grid.rows,
            c < self.grid.cols,
        ensures
            b == cell_east(self.grid, r as int, c as int),
    {
        let ghost g = self.grid;
        proof {
            lemma_scan_sizes(g);
        }
        let rows = self.grid.rows;
        let cols = self.grid.cols;
        let mut found = false;
        let mut dc: usize = 1;
        while dc < cols && c + dc < cols && !found
            invariant
                g == self.grid,
                g.wf(),
                g.n_cells() <= usize::MAX,
                cols + cols <= usize::MAX,
                rows == g.rows,
                cols == g.cols,
                r < rows,
                c < cols,
                1 <= dc,
                !found ==> forall|nc: int| c < nc < c + dc ==> !#[trigger] g.cell_exists@[g.cell_at(r as int, nc)],
                found ==> cell_east(g, r as int, c as int),
            decreases cols - dc,
        {
            let ec = c + dc;
            proof {
                lemma_index_in_box(r as int, ec as int, rows as int, cols as int);
            }
            let eid = self.grid.cell_id(r, ec);
            if self.grid.cell_exists[eid] {
                found = true;
            }
            dc = dc + 1;
        }
        proof {
            if !found {
                assert forall|nc: int| c < nc < cols implies !#[trigger] g.cell_exists@[g.cell_at(r as int, nc)] by {
                }
            }
        }
        found
    }

    /// Whether some cell of row `r` left of column `c` exists.
    #[verifier::spinoff_prover]
    fn scan_west(&self, r: usize, c: usize) -> (b: bool)
        requires
            self.grid.wf(),
            r < self.grid.rows,
            c < self.grid.cols,
        ensures
            b == cell_west(self.grid, r as int, c as int),
    {
        let ghost g = self.grid;
        proof {
            lemma_scan_sizes(g);
        }
        let rows = self.grid.rows;
        let cols = self.grid.cols;
        let mut found = false;
        let mut dc: usize = 1;
        while dc < cols && dc <= c && !found
            invariant
                g == self.grid,
                g.wf(),
                g.n_cells() <= usize::MAX,
                rows == g.rows,
                cols == g.cols,
                r < rows,
                c < cols,
                1 <= dc,
                !found ==> forall|nc: int| c - dc < nc < c ==> !#[trigger] g.cell_exists@[g.cell_at(r as int, nc)],
                found ==> cell_west(g, r as int, c as int),
            decreases cols - dc,
        {
            let wc = c - dc;
            proof {
                lemma_index_in_box(r as int, wc as int, rows as int, cols as int);
            }
            let wid = self.grid.cell_id(r, wc);
            if self.grid.cell_exists[wid] {
                found = true;
            }
            dc = dc + 1;
        }
        proof {
            if !found {
                assert forall|nc: int| 0 <= nc < c implies !#[trigger] g.cell_exists@[g.cell_at(r as int, nc)] by {
                }
            }
        }
        found
    }

    /// The area bounds of the piece of a compass clue at `cell`: the least
    /// area, the greatest when known, and the exact area when known (see
    /// `compass_bounds`).
    #[verifier::spinoff_prover]
    pub fn get_compass_area_bounds(&self, cell: CellId, compass: &CompassData) -> (res: (usize, Option<usize>, Option<usize>))
        requires
            self.grid.wf(),
            cell < self.grid.n_cells(),
            1 + or_zero(compass.n) + or_zero(compass.s) + or_zero(compass.e) + or_zero(compass.w) <= usize::MAX,
        ensures
            res.0 == compass_bounds(self.grid, cell as int, *compass).0,
            res.1 matches Some(m) ==> compass_bounds(self.grid, cell as int, *compass).1 == Some(m as int),
            res.1 is None ==> compass_bounds(self.grid, cell as int, *compass).1 is None,
            res.2 matches Some(m) ==> compass_bounds(self.grid, cell as int, *compass).2 == Some(m as int),
            res.2 is None ==> compass_bounds(self.grid, cell as int, *compass).2 is None,
    {
        let ghost g = self.grid;
        proof {
            g.lemma_sizes();
            assert(g.cols > 0) by {
                if g.cols == 0 {
                    assert(g.rows * g.cols == 0) by (nonlinear_arith)
                        requires
                            g.cols == 0,
                    ;
                }
            }
            lemma_div_mod_in_box(cell as int, g.rows as int, g.cols as int);
        }
        let (r, c) = self.grid.cell_pos(cell);
        let has_north = self.scan_north(r, c);
        let has_south = self.scan_south(r, c);
        let has_east = self.scan_east(r, c);
        let has_west = self.scan_west(r, c);
        let n = match compass.n {
            Some(v) => Some(v),
            None => if !has_north {
                Some(0)
            } else {
                None
            },
        };
        let s = match compass.s {
            Some(v) => Some(v),
            None => if !has_south {
                Some(0)
            } else {
                None
            },
        };
        let e = match compass.e {
            Some(v) => Some(v),
            None => if !has_east {
                Some(0)
            } else {
                None
            },
        };
        let w = match compass.w {
            Some(v) => Some(v),
            None => if !has_west {
                Some(0)
            } else {
                None
            },
        };
        proof {
            assert((n, s, e, w) == compass_dirs(g, cell as int, *compass));
        }
        let nv = match n {
            Some(v) => v,
            None => 0,
        };
        let sv = match s {
            Some(v) => v,
            None => 0,
        };
        let ev = match e {
            Some(v) => v,
            None => 0,
        };
        let wv = match w {
            Some(v) => v,
            None => 0,
        };
        let ns = nv + sv;
        let ew = ev + wv;
        let min_area = 1 + if ns >= ew {
            ns
        } else {
            ew
        };
        let exact_area = if e == Some(0usize) && w == Some(0usize) {
            Some(1 + nv + sv)
        } else if n == Some(0usize) && s == Some(0usize) {
            Some(1 + ev + wv)
        } else {
            None
        };
        let max_area = if n.is_some() && s.is_some() && e.is_some() && w.is_some() {
            Some(1 + nv + sv + ev + wv)
        } else {
            None
        };
        (min_area, max_area, exact_area)
    }
}

} // verus!
