use vstd::prelude::*;
use vstd::arithmetic::div_mod::{lemma_fundamental_div_mod, lemma_fundamental_div_mod_converse};
use crate::types::{CellId, EdgeId, VertexId};

verus! {

// ── Helper types ─────────────────────────────────────────────────────────────

/// Directional values for the four cardinal directions,
/// listed in the order north, south, west, east.
#[derive(Clone, Debug)]
pub struct News<T> {
    pub north: T,
    pub south: T,
    pub west: T,
    pub east: T,
}

impl<T> News<T> {
    /// Convert to array `[north, south, west, east]`.
    pub fn into_array(self) -> (a: [T; 4])
        ensures
            a@ == seq![self.north, self.south, self.west, self.east],
    {
        [self.north, self.south, self.west, self.east]
    }
}

/// A pair of horizontal-edge values and a pair of vertical-edge values.
///
/// `horiz = (west, east)` are the two horizontal edges meeting at a vertex and
/// `vert = (north, south)` the two vertical ones. When both entries of a pair are
/// present, `.0 < .1`.
#[derive(Clone, Debug)]
pub struct HorizVert<T> {
    pub horiz: T,
    pub vert: T,
}

impl<T: Copy> HorizVert<(T, T)> {
    /// The four entries in the order horiz.0, horiz.1, vert.0, vert.1.
    pub fn into_array(self) -> (a: [T; 4])
        ensures
            a@ == seq![self.horiz.0, self.horiz.1, self.vert.0, self.vert.1],
    {
        [self.horiz.0, self.horiz.1, self.vert.0, self.vert.1]
    }
}

/// An optional id, as a `usize`.
pub open spec fn opt_usize(o: Option<int>) -> Option<usize> {
    match o {
        Some(x) => Some(x as usize),
        None => None,
    }
}

// ── Grid ─────────────────────────────────────────────────────────────────────

/// A rectangular grid of `rows` x `cols` cells; some cells may be missing.
///
/// Cells are numbered row by row. Horizontal edges (below cell (r, c)) come first,
/// numbered column by column; vertical edges (right of cell (r, c)) follow, row by row.
/// Vertices are the `(rows + 1) x (cols + 1)` grid points, numbered row by row.
#[derive(Clone, Debug)]
pub struct Grid {
    pub rows: usize,
    pub cols: usize,
    pub cell_exists: Vec<bool>,
}

/// `a * b` is monotone in both arguments over the naturals.
pub proof fn lemma_mul_le(a: int, b: int, c: int, d: int)
    requires
        0 <= a <= c,
        0 <= b <= d,
    ensures
        a * b <= c * d,
{
    assert(a * b <= c * d) by (nonlinear_arith)
        requires
            0 <= a <= c,
            0 <= b <= d,
    ;
}

/// Row-major index of a position inside a `rows x cols` box lies inside the box.
pub proof fn lemma_index_in_box(r: int, c: int, rows: int, cols: int)
    requires
        0 <= r < rows,
        0 <= c < cols,
    ensures
        0 <= r * cols + c < rows * cols,
{
    assert(0 <= r * cols + c < rows * cols) by (nonlinear_arith)
        requires
            0 <= r < rows,
            0 <= c < cols,
    ;
}

/// Dividing a row-major index gives back its row and column.
pub proof fn lemma_index_div_mod(r: int, c: int, cols: int)
    requires
        0 <= r,
        0 <= c < cols,
    ensures
        (r * cols + c) / cols == r,
        (r * cols + c) % cols == c,
{
    lemma_fundamental_div_mod_converse(r * cols + c, cols, r, c);
}

/// A row-major index splits into row and column inside the box.
pub proof fn lemma_div_mod_in_box(x: int, rows: int, cols: int)
    requires
        0 <= x < rows * cols,
        cols > 0,
    ensures
        0 <= x / cols < rows,
        0 <= x % cols < cols,
        x == (x / cols) * cols + x % cols,
{
    lemma_fundamental_div_mod(x, cols);
    assert(x == (x / cols) * cols + x % cols) by (nonlinear_arith)
        requires
            x == cols * (x / cols) + (x % cols),
    ;
    assert(0 <= x / cols < rows) by (nonlinear_arith)
        requires
            0 <= x < rows * cols,
            cols > 0,
            x == (x / cols) * cols + x % cols,
            0 <= x % cols < cols,
    ;
}

impl Grid {
    /// The cell vector matches the dimensions, and every index computed from
    /// them (cells, edges, vertices) fits in a `usize`.
    pub open spec fn wf(&self) -> bool {
        &&& self.cell_exists@.len() == self.rows * self.cols
        &&& 2 * (self.rows + 1) * (self.cols + 1) <= usize::MAX
    }

    pub open spec fn n_cells(&self) -> int {
        self.rows * self.cols
    }

    pub open spec fn n_h_edges(&self) -> int {
        if self.rows > 1 {
            (self.rows - 1) * self.cols
        } else {
            0
        }
    }

    pub open spec fn n_v_edges(&self) -> int {
        if self.cols > 1 {
            self.rows * (self.cols - 1)
        } else {
            0
        }
    }

    pub open spec fn n_edges(&self) -> int {
        self.n_h_edges() + self.n_v_edges()
    }

    pub open spec fn n_vertices(&self) -> int {
        (self.rows + 1) * (self.cols + 1)
    }

    /// Id of cell (r, c).
    pub open spec fn cell_at(&self, r: int, c: int) -> int {
        r * self.cols + c
    }

    /// Id of the horizontal edge below cell (r, c).
    pub open spec fn h_edge_at(&self, r: int, c: int) -> int {
        c * (self.rows - 1) + r
    }

    /// Id of the vertical edge right of cell (r, c).
    pub open spec fn v_edge_at(&self, r: int, c: int) -> int {
        self.n_h_edges() + r * (self.cols - 1) + c
    }

    /// Id of grid point (i, j).
    pub open spec fn vertex_at(&self, i: int, j: int) -> int {
        i * (self.cols + 1) + j
    }

    /// (is_horizontal, r, c) of edge `e`.
    pub open spec fn edge_decoded(&self, e: int) -> (bool, int, int) {
        if e < self.n_h_edges() {
            (true, e % (self.rows - 1), e / (self.rows - 1))
        } else {
            (false, (e - self.n_h_edges()) / (self.cols - 1), (e - self.n_h_edges()) % (self.cols
                - 1))
        }
    }

    /// The two cells separated by edge `e`, smaller id first.
    pub open spec fn edge_cells_of(&self, e: int) -> (int, int) {
        let (h, r, c) = self.edge_decoded(e);
        if h {
            (self.cell_at(r, c), self.cell_at(r + 1, c))
        } else {
            (self.cell_at(r, c), self.cell_at(r, c + 1))
        }
    }

    /// The two end points of edge `e`, smaller id first.
    pub open spec fn edge_vertices_of(&self, e: int) -> (int, int) {
        let (h, r, c) = self.edge_decoded(e);
        if h {
            (self.vertex_at(r + 1, c), self.vertex_at(r + 1, c + 1))
        } else {
            (self.vertex_at(r, c + 1), self.vertex_at(r + 1, c + 1))
        }
    }

    /// The edge between cells `a` and `b`, if they are side by side.
    pub open spec fn edge_between_spec(&self, a: int, b: int) -> Option<int> {
        let (ra, ca) = (a / self.cols as int, a % self.cols as int);
        let (rb, cb) = (b / self.cols as int, b % self.cols as int);
        if ra == rb && ca + 1 == cb {
            Some(self.v_edge_at(ra, ca))
        } else if ra == rb && ca == cb + 1 {
            Some(self.v_edge_at(ra, cb))
        } else if ca == cb && ra + 1 == rb {
            Some(self.h_edge_at(ra, ca))
        } else if ca == cb && ra == rb + 1 {
            Some(self.h_edge_at(rb, cb))
        } else {
            None
        }
    }

    /// West, east, north and south edges at grid point (i, j); `None` on the border.
    pub open spec fn vertex_edges_spec(&self, i: int, j: int) -> (
        Option<int>,
        Option<int>,
        Option<int>,
        Option<int>,
    ) {
        (
            if i >= 1 && i < self.rows && j >= 1 {
                Some(self.h_edge_at(i - 1, j - 1))
            } else {
                None
            },
            if i >= 1 && i < self.rows && j < self.cols {
                Some(self.h_edge_at(i - 1, j))
            } else {
                None
            },
            if i >= 1 && j >= 1 && j < self.cols {
                Some(self.v_edge_at(i - 1, j - 1))
            } else {
                None
            },
            if i < self.rows && j >= 1 && j < self.cols {
                Some(self.v_edge_at(i, j - 1))
            } else {
                None
            },
        )
    }

    /// Top-left, top-right, bottom-left and bottom-right cells at grid point (i, j).
    pub open spec fn vertex_cells_spec(&self, i: int, j: int) -> Seq<Option<int>> {
        seq![
            if i > 0 && j > 0 { Some(self.cell_at(i - 1, j - 1)) } else { None },
            if i > 0 && j < self.cols { Some(self.cell_at(i - 1, j)) } else { None },
            if i < self.rows && j > 0 { Some(self.cell_at(i, j - 1)) } else { None },
            if i < self.rows && j < self.cols { Some(self.cell_at(i, j)) } else { None },
        ]
    }

    /// North, south, west and east edges of cell `c`; `None` on the border.
    pub open spec fn cell_edges_spec(&self, c: int) -> Seq<Option<int>> {
        let r = c / self.cols as int;
        let col = c % self.cols as int;
        seq![
            if r > 0 { Some(self.h_edge_at(r - 1, col)) } else { None },
            if r < self.rows - 1 { Some(self.h_edge_at(r, col)) } else { None },
            if col > 0 { Some(self.v_edge_at(r, col - 1)) } else { None },
            if col < self.cols - 1 { Some(self.v_edge_at(r, col)) } else { None },
        ]
    }

    /// Number of `true` entries in the first `k` entries of `s`.
    pub open spec fn count_true(s: Seq<bool>, k: int) -> nat
        decreases k,
    {
        if k <= 0 {
            0
        } else if s[k - 1] {
            Self::count_true(s, k - 1) + 1
        } else {
            Self::count_true(s, k - 1)
        }
    }

    pub open spec fn existing_count(&self) -> nat {
        Self::count_true(self.cell_exists@, self.cell_exists@.len() as int)
    }

    /// Facts about the sizes that follow from well-formedness.
    pub proof fn lemma_sizes(&self)
        requires
            self.wf(),
        ensures
            self.n_cells() <= usize::MAX,
            self.n_vertices() <= usize::MAX,
            0 <= self.n_h_edges() <= self.n_cells(),
            0 <= self.n_v_edges() <= self.n_cells(),
            self.n_edges() <= usize::MAX,
            self.n_cells() + self.n_vertices() <= usize::MAX,
            self.rows + 1 <= self.n_vertices(),
            self.cols + 1 <= self.n_vertices(),
    {
        lemma_mul_le(1, self.cols + 1, self.rows + 1, self.cols + 1);
        lemma_mul_le(self.rows + 1, 1, self.rows + 1, self.cols + 1);
        let r = self.rows as int;
        let c = self.cols as int;
        assert(r * c <= (r + 1) * (c + 1)) by (nonlinear_arith)
            requires
                r >= 0,
                c >= 0,
        ;
        assert(2 * (r + 1) * (c + 1) == 2 * ((r + 1) * (c + 1))) by (nonlinear_arith);
        if r > 1 {
            lemma_mul_le(r - 1, c, r, c);
        }
        if c > 1 {
            lemma_mul_le(r, c - 1, r, c);
        }
    }

    pub fn new(rows: usize, cols: usize, default_exists: bool) -> (g: Self)
        requires
            2 * (rows + 1) * (cols + 1) <= usize::MAX,
        ensures
            g.rows == rows,
            g.cols == cols,
            g.wf(),
            forall|i: int| 0 <= i < g.cell_exists@.len() ==> g.cell_exists@[i] == default_exists,
    {
        proof {
            lemma_mul_le(rows as int, cols as int, rows + 1, cols + 1);
            assert(2 * (rows + 1) * (cols + 1) == 2 * ((rows + 1) * (cols + 1))) by (nonlinear_arith);
        }
        Self { rows, cols, cell_exists: vec![default_exists; rows * cols] }
    }

    pub fn cell_pos(&self, c: CellId) -> (p: (usize, usize))
        requires
            self.cols > 0,
        ensures
            p.0 == c / self.cols,
            p.1 == c % self.cols,
    {
        (c / self.cols, c % self.cols)
    }

    pub fn cell_id(&self, r: usize, c: usize) -> (id: CellId)
        requires
            r * self.cols + c <= usize::MAX,
        ensures
            id == self.cell_at(r as int, c as int),
    {
        r * self.cols + c
    }

    pub fn num_h_edges(&self) -> (n: usize)
        requires
            self.wf(),
        ensures
            n == self.n_h_edges(),
    {
        proof {
            self.lemma_sizes();
        }
        if self.rows > 1 {
            (self.rows - 1) * self.cols
        } else {
            0
        }
    }

    pub fn num_v_edges(&self) -> (n: usize)
        requires
            self.wf(),
        ensures
            n == self.n_v_edges(),
    {
        proof {
            self.lemma_sizes();
        }
        if self.cols > 1 {
            self.rows * (self.cols - 1)
        } else {
            0
        }
    }

    pub fn num_edges(&self) -> (n: usize)
        requires
            self.wf(),
        ensures
            n == self.n_edges(),
    {
        proof {
            self.lemma_sizes();
        }
        self.num_h_edges() + self.num_v_edges()
    }

    pub fn num_cells(&self) -> (n: usize)
        requires
            self.rows * self.cols <= usize::MAX,
        ensures
            n == self.n_cells(),
    {
        self.rows * self.cols
    }

    /// H(r,c): horizontal edge below cell (r,c), between rows r and r+1.
    /// Runs from vertex(r+1, c) to vertex(r+1, c+1).
    pub fn h_edge(&self, r: usize, c: usize) -> (e: EdgeId)
        requires
            self.wf(),
            r + 1 < self.rows,
            c < self.cols,
        ensures
            e == self.h_edge_at(r as int, c as int),
            0 <= e < self.n_h_edges(),
    {
        proof {
            self.lemma_sizes();
            lemma_index_in_box(c as int, r as int, self.cols as int, self.rows - 1);
            assert((self.cols as int) * (self.rows - 1) == (self.rows - 1) * (self.cols as int))
                by (nonlinear_arith);
        }
        c * (self.rows - 1) + r
    }

    /// V(r,c): vertical edge right of cell (r,c), between cols c and c+1.
    /// Runs from vertex(r, c+1) to vertex(r+1, c+1).
    pub fn v_edge(&self, r: usize, c: usize) -> (e: EdgeId)
        requires
            self.wf(),
            r < self.rows,
            c + 1 < self.cols,
        ensures
            e == self.v_edge_at(r as int, c as int),
            self.n_h_edges() <= e < self.n_edges(),
    {
        proof {
            self.lemma_sizes();
            lemma_index_in_box(r as int, c as int, self.rows as int, self.cols - 1);
        }
        self.num_h_edges() + r * (self.cols - 1) + c
    }

    /// Decode edge to (is_horizontal, r, c)
    pub fn decode_edge(&self, e: EdgeId) -> (d: (bool, usize, usize))
        requires
            self.wf(),
            e < self.n_edges(),
        ensures
            d.0 == self.edge_decoded(e as int).0,
            d.1 == self.edge_decoded(e as int).1,
            d.2 == self.edge_decoded(e as int).2,
            d.0 ==> d.1 + 1 < self.rows && d.2 < self.cols,
            !d.0 ==> d.1 < self.rows && d.2 + 1 < self.cols,
    {
        proof {
            self.lemma_sizes();
        }
        let nh = self.num_h_edges();
        if e < nh {
            proof {
                lemma_div_mod_in_box(e as int, self.cols as int, self.rows - 1);
                assert((self.rows - 1) * (self.cols as int) == (self.cols as int) * (self.rows - 1))
                    by (nonlinear_arith);
            }
            let r = e % (self.rows - 1);
            let c = e / (self.rows - 1);
            (true, r, c)
        } else {
            let idx = e - nh;
            proof {
                assert(self.cols > 1) by {
                    if self.cols <= 1 {
                        assert(self.n_v_edges() == 0);
                    }
                }
                lemma_div_mod_in_box(idx as int, self.rows as int, self.cols - 1);
            }
            let r = idx / (self.cols - 1);
            let c = idx % (self.cols - 1);
            (false, r, c)
        }
    }

    /// Edge between two adjacent cells, returns None if not adjacent
    pub fn edge_between(&self, a: CellId, b: CellId) -> (e: Option<EdgeId>)
        requires
            self.wf(),
            a < self.n_cells(),
            b < self.n_cells(),
        ensures
            e matches Some(x) ==> self.edge_between_spec(a as int, b as int) == Some(x as int),
            e is None ==> self.edge_between_spec(a as int, b as int) is None,
            e matches Some(x) ==> x < self.n_edges(),
    {
        proof {
            self.lemma_sizes();
            if self.cols == 0 {
                assert(self.n_cells() == 0);
            }
            lemma_div_mod_in_box(a as int, self.rows as int, self.cols as int);
            lemma_div_mod_in_box(b as int, self.rows as int, self.cols as int);
        }
        let (ra, ca) = self.cell_pos(a);
        let (rb, cb) = self.cell_pos(b);
        if ra == rb && ca + 1 == cb {
            return Some(self.v_edge(ra, ca));
        }
        if ra == rb && ca == cb + 1 {
            return Some(self.v_edge(ra, cb));
        }
        if ca == cb && ra + 1 == rb {
            return Some(self.h_edge(ra, ca));
        }
        if ca == cb && ra == rb + 1 {
            return Some(self.h_edge(rb, cb));
        }
        None
    }

    /// The two cells adjacent to an edge, sorted: `.0 < .1` (smaller CellId first).
    pub fn edge_cells(&self, e: EdgeId) -> (p: (CellId, CellId))
        requires
            self.wf(),
            e < self.n_edges(),
        ensures
            p.0 == self.edge_cells_of(e as int).0,
            p.1 == self.edge_cells_of(e as int).1,
            p.0 < p.1 < self.n_cells(),
    {
        let (is_h, r, c) = self.decode_edge(e);
        proof {
            self.lemma_sizes();
            let cols = self.cols as int;
            if is_h {
                lemma_index_in_box(r + 1, c as int, self.rows as int, cols);
                lemma_index_in_box(r as int, c as int, self.rows as int, cols);
                assert((r + 1) * cols == r * cols + cols) by (nonlinear_arith);
            } else {
                lemma_index_in_box(r as int, c + 1, self.rows as int, cols);
                lemma_index_in_box(r as int, c as int, self.rows as int, cols);
            }
        }
        if is_h {
            (self.cell_id(r, c), self.cell_id(r + 1, c))
        } else {
            (self.cell_id(r, c), self.cell_id(r, c + 1))
        }
    }

    /// Vertex at grid point (i,j), 0<=i<=rows, 0<=j<=cols
    pub fn vertex(&self, i: usize, j: usize) -> (v: VertexId)
        requires
            self.wf(),
            i <= self.rows,
            j <= self.cols,
        ensures
            v == self.vertex_at(i as int, j as int),
            v < self.n_vertices(),
    {
        proof {
            self.lemma_sizes();
            lemma_index_in_box(i as int, j as int, self.rows + 1, self.cols + 1);
        }
        let w = self.cols + 1;
        proof {
            assert(i * w + j < self.n_vertices());
            assert(i * w <= i * w + j);
        }
        i * w + j
    }

    /// Decode vertex to (i, j)
    pub fn vertex_pos(&self, v: VertexId) -> (p: (usize, usize))
        requires
            self.cols + 1 <= usize::MAX,
        ensures
            p.0 == v as int / (self.cols + 1),
            p.1 == v as int % (self.cols + 1),
    {
        (v / (self.cols + 1), v % (self.cols + 1))
    }

    /// The two endpoint vertices of an edge, sorted: `.0 < .1` (smaller VertexId first).
    ///
    /// - `h_edge(r, c)` → `(vertex(r+1, c), vertex(r+1, c+1))`   left < right
    /// - `v_edge(r, c)` → `(vertex(r, c+1), vertex(r+1, c+1))`   top  < bottom
    pub fn edge_vertices(&self, e: EdgeId) -> (p: (VertexId, VertexId))
        requires
            self.wf(),
            e < self.n_edges(),
        ensures
            p.0 == self.edge_vertices_of(e as int).0,
            p.1 == self.edge_vertices_of(e as int).1,
            p.0 < p.1 < self.n_vertices(),
    {
        let (is_h, r, c) = self.decode_edge(e);
        proof {
            assert((r + 1) * (self.cols + 1) == r * (self.cols + 1) + self.cols + 1)
                by (nonlinear_arith);
        }
        if is_h {
            (self.vertex(r + 1, c), self.vertex(r + 1, c + 1))
        } else {
            (self.vertex(r, c + 1), self.vertex(r + 1, c + 1))
        }
    }

    /// 4 edges adjacent to vertex (i,j): `horiz = (west, east)`, `vert = (north, south)`.
    /// `None` marks a side with no edge (grid border).
    pub fn vertex_edges(&self, i: usize, j: usize) -> (hv: HorizVert<(Option<EdgeId>, Option<EdgeId>)>)
        requires
            self.wf(),
            i <= self.rows,
            j <= self.cols,
        ensures
            hv.horiz.0 == opt_usize(self.vertex_edges_spec(i as int, j as int).0),
            hv.horiz.1 == opt_usize(self.vertex_edges_spec(i as int, j as int).1),
            hv.vert.0 == opt_usize(self.vertex_edges_spec(i as int, j as int).2),
            hv.vert.1 == opt_usize(self.vertex_edges_spec(i as int, j as int).3),
            hv.horiz.0 matches Some(x) ==> x < self.n_edges(),
            hv.horiz.1 matches Some(x) ==> x < self.n_edges(),
            hv.vert.0 matches Some(x) ==> x < self.n_edges(),
            hv.vert.1 matches Some(x) ==> x < self.n_edges(),
    {
        HorizVert {
            horiz: (
                if i >= 1 && i < self.rows && j >= 1 {
                    Some(self.h_edge(i - 1, j - 1))
                } else {
                    None
                },
                if i >= 1 && i < self.rows && j < self.cols {
                    Some(self.h_edge(i - 1, j))
                } else {
                    None
                },
            ),
            vert: (
                if i >= 1 && j >= 1 && j < self.cols {
                    Some(self.v_edge(i - 1, j - 1))
                } else {
                    None
                },
                if i < self.rows && j >= 1 && j < self.cols {
                    Some(self.v_edge(i, j - 1))
                } else {
                    None
                },
            ),
        }
    }

    /// Cells sharing a vertex: top-left, top-right, bottom-left, bottom-right
    pub fn vertex_cells(&self, i: usize, j: usize) -> (a: [Option<CellId>; 4])
        requires
            self.wf(),
            i <= self.rows,
            j <= self.cols,
        ensures
            forall|k: int|
                0 <= k < 4 ==> a@[k] == opt_usize(#[trigger] self.vertex_cells_spec(i as int, j as int)[k]),
            forall|k: int| 0 <= k < 4 ==> (#[trigger] a@[k] matches Some(x) ==> x < self.n_cells()),
    {
        proof {
            self.lemma_sizes();
            if i > 0 && j > 0 {
                lemma_index_in_box(i - 1, j - 1, self.rows as int, self.cols as int);
            }
            if i > 0 && j < self.cols {
                lemma_index_in_box(i - 1, j as int, self.rows as int, self.cols as int);
            }
            if i < self.rows && j > 0 {
                lemma_index_in_box(i as int, j - 1, self.rows as int, self.cols as int);
            }
            if i < self.rows && j < self.cols {
                lemma_index_in_box(i as int, j as int, self.rows as int, self.cols as int);
            }
        }
        [
            if i > 0 && j > 0 {
                Some(self.cell_id(i - 1, j - 1))
            } else {
                None
            },
            if i > 0 && j < self.cols {
                Some(self.cell_id(i - 1, j))
            } else {
                None
            },
            if i < self.rows && j > 0 {
                Some(self.cell_id(i, j - 1))
            } else {
                None
            },
            if i < self.rows && j < self.cols {
                Some(self.cell_id(i, j))
            } else {
                None
            },
        ]
    }

    /// 4 edges around a cell: `north`, `south`, `west`, `east`.
    /// `None` means the edge is on the grid boundary (no neighbor in that direction).
    pub fn cell_edges(&self, c: CellId) -> (ne: News<Option<EdgeId>>)
        requires
            self.wf(),
            c < self.n_cells(),
        ensures
            ne.north == opt_usize(self.cell_edges_spec(c as int)[0]),
            ne.south == opt_usize(self.cell_edges_spec(c as int)[1]),
            ne.west == opt_usize(self.cell_edges_spec(c as int)[2]),
            ne.east == opt_usize(self.cell_edges_spec(c as int)[3]),
            ne.north matches Some(x) ==> x < self.n_edges(),
            ne.south matches Some(x) ==> x < self.n_edges(),
            ne.west matches Some(x) ==> x < self.n_edges(),
            ne.east matches Some(x) ==> x < self.n_edges(),
    {
        proof {
            lemma_div_mod_in_box(c as int, self.rows as int, self.cols as int);
        }
        let (r, col) = self.cell_pos(c);
        News {
            north: if r > 0 {
                Some(self.h_edge(r - 1, col))
            } else {
                None
            },
            south: if r < self.rows - 1 {
                Some(self.h_edge(r, col))
            } else {
                None
            },
            west: if col > 0 {
                Some(self.v_edge(r, col - 1))
            } else {
                None
            },
            east: if col < self.cols - 1 {
                Some(self.v_edge(r, col))
            } else {
                None
            },
        }
    }

    pub fn total_existing_cells(&self) -> (n: usize)
        ensures
            n == self.existing_count(),
    {
        let mut n: usize = 0;
        let mut i: usize = 0;
        while i < self.cell_exists.len()
            invariant
                i <= self.cell_exists@.len(),
                n == Self::count_true(self.cell_exists@, i as int),
                n <= i,
            decreases self.cell_exists@.len() - i,
        {
            if self.cell_exists[i] {
                n = n + 1;
            }
            i = i + 1;
        }
        n
    }
}


// ── Laws of the numbering ────────────────────────────────────────────────────

/// `cell_pos` undoes `cell_id`: the cell at (r, c) lies at row r, column c.
pub proof fn law_cell_pos_cell_id(g: Grid, r: int, c: int)
    requires
        0 <= r < g.rows,
        0 <= c < g.cols,
    ensures
        g.cell_at(r, c) / (g.cols as int) == r,
        g.cell_at(r, c) % (g.cols as int) == c,
{
    lemma_index_div_mod(r, c, g.cols as int);
}

/// `decode_edge` undoes `h_edge`.
pub proof fn law_decode_h_edge(g: Grid, r: int, c: int)
    requires
        g.wf(),
        0 <= r,
        r + 1 < g.rows,
        0 <= c < g.cols,
    ensures
        g.edge_decoded(g.h_edge_at(r, c)) == (true, r, c),
{
    lemma_index_in_box(c, r, g.cols as int, g.rows - 1);
    assert((g.cols as int) * (g.rows - 1) == (g.rows - 1) * (g.cols as int)) by (nonlinear_arith);
    lemma_index_div_mod(c, r, g.rows - 1);
}

/// The two cells of an edge are cells of the grid, the first the smaller.
pub proof fn lemma_edge_cells_range(g: Grid, e: int)
    requires
        g.wf(),
        0 <= e < g.n_edges(),
    ensures
        0 <= g.edge_cells_of(e).0 < g.edge_cells_of(e).1 < g.n_cells(),
{
    let rows = g.rows as int;
    let cols = g.cols as int;
    if e < g.n_h_edges() {
        assert((rows - 1) * cols == cols * (rows - 1)) by (nonlinear_arith);
        lemma_div_mod_in_box(e, cols, rows - 1);
        let r = e % (rows - 1);
        let c = e / (rows - 1);
        lemma_index_in_box(r + 1, c, rows, cols);
        assert((r + 1) * cols == r * cols + cols) by (nonlinear_arith);
    } else {
        let e2 = e - g.n_h_edges();
        lemma_div_mod_in_box(e2, rows, cols - 1);
        let r = e2 / (cols - 1);
        let c = e2 % (cols - 1);
        lemma_index_in_box(r, c + 1, rows, cols);
    }
}

/// An edge is a side of both cells that it separates: a horizontal edge is
/// the south side of the first and the north side of the second, a vertical
/// edge the east side of the first and the west side of the second.
pub proof fn law_edge_is_side(g: Grid, e: int)
    requires
        g.wf(),
        0 <= e < g.n_edges(),
    ensures
        g.edge_decoded(e).0 ==> g.cell_edges_spec(g.edge_cells_of(e).0)[1] == Some(e) && g.cell_edges_spec(
            g.edge_cells_of(e).1,
        )[0] == Some(e),
        !g.edge_decoded(e).0 ==> g.cell_edges_spec(g.edge_cells_of(e).0)[3] == Some(e) && g.cell_edges_spec(
            g.edge_cells_of(e).1,
        )[2] == Some(e),
{
    let rows = g.rows as int;
    let cols = g.cols as int;
    if e < g.n_h_edges() {
        assert(rows > 1);
        assert((rows - 1) * cols == cols * (rows - 1)) by (nonlinear_arith);
        lemma_div_mod_in_box(e, cols, rows - 1);
        let r = e % (rows - 1);
        let c = e / (rows - 1);
        assert(e == c * (rows - 1) + r);
        law_cell_pos_cell_id(g, r, c);
        law_cell_pos_cell_id(g, r + 1, c);
        assert(g.cell_at(r + 1, c) == (r + 1) * cols + c);
    } else {
        let e2 = e - g.n_h_edges();
        assert(cols > 1);
        lemma_div_mod_in_box(e2, rows, cols - 1);
        let r = e2 / (cols - 1);
        let c = e2 % (cols - 1);
        assert(e2 == r * (cols - 1) + c);
        law_cell_pos_cell_id(g, r, c);
        law_cell_pos_cell_id(g, r, c + 1);
    }
}

/// `decode_edge` undoes `v_edge`.
pub proof fn law_decode_v_edge(g: Grid, r: int, c: int)
    requires
        g.wf(),
        0 <= r < g.rows,
        0 <= c,
        c + 1 < g.cols,
    ensures
        g.edge_decoded(g.v_edge_at(r, c)) == (false, r, c),
{
    lemma_index_div_mod(r, c, g.cols - 1);
}

/// The edge between two cells does not depend on the order in which they are given.
pub proof fn law_edge_between_symmetric(g: Grid, a: int, b: int)
    ensures
        g.edge_between_spec(a, b) == g.edge_between_spec(b, a),
{
}

/// `edge_cells` gives back the two cells that `edge_between` connects, smaller id first.
pub proof fn law_edge_cells_of_edge_between(g: Grid, a: int, b: int)
    requires
        g.wf(),
        0 <= a < g.n_cells(),
        0 <= b < g.n_cells(),
        g.edge_between_spec(a, b) is Some,
    ensures
        g.edge_cells_of(g.edge_between_spec(a, b)->0) == (
            if a < b { (a, b) } else { (b, a) }
        ),
{
    let cols = g.cols as int;
    if cols == 0 {
        assert(g.n_cells() == 0);
    }
    lemma_div_mod_in_box(a, g.rows as int, cols);
    lemma_div_mod_in_box(b, g.rows as int, cols);
    let (ra, ca) = (a / cols, a % cols);
    let (rb, cb) = (b / cols, b % cols);
    if ra == rb && ca + 1 == cb {
        law_decode_v_edge(g, ra, ca);
    } else if ra == rb && ca == cb + 1 {
        law_decode_v_edge(g, ra, cb);
    } else if ca == cb && ra + 1 == rb {
        law_decode_h_edge(g, ra, ca);
        assert((ra + 1) * cols == ra * cols + cols) by (nonlinear_arith);
    } else {
        law_decode_h_edge(g, rb, cb);
        assert((rb + 1) * cols == rb * cols + cols) by (nonlinear_arith);
    }
}

/// `edge_between` on the two cells of an edge gives back the edge.
pub proof fn law_edge_between_of_edge_cells(g: Grid, e: int)
    requires
        g.wf(),
        0 <= e < g.n_edges(),
    ensures
        g.edge_between_spec(g.edge_cells_of(e).0, g.edge_cells_of(e).1) == Some(e),
{
    let rows = g.rows as int;
    let cols = g.cols as int;
    if e < g.n_h_edges() {
        assert(rows > 1);
        assert((rows - 1) * cols == cols * (rows - 1)) by (nonlinear_arith);
        lemma_div_mod_in_box(e, cols, rows - 1);
        let r = e % (rows - 1);
        let c = e / (rows - 1);
        assert(e == c * (rows - 1) + r);
        law_cell_pos_cell_id(g, r, c);
        law_cell_pos_cell_id(g, r + 1, c);
        assert(g.cell_at(r + 1, c) == (r + 1) * cols + c);
    } else {
        let e2 = e - g.n_h_edges();
        assert(cols > 1);
        lemma_div_mod_in_box(e2, rows, cols - 1);
        let r = e2 / (cols - 1);
        let c = e2 % (cols - 1);
        assert(e2 == r * (cols - 1) + c);
        law_cell_pos_cell_id(g, r, c);
        law_cell_pos_cell_id(g, r, c + 1);
    }
}

/// When a grid point has both a west and an east edge (or both a north and a south
/// edge), the first has the smaller id.
pub proof fn law_vertex_edges_sorted(g: Grid, i: int, j: int)
    requires
        g.wf(),
        0 <= i <= g.rows,
        0 <= j <= g.cols,
    ensures
        ({
            let ve = g.vertex_edges_spec(i, j);
            &&& (ve.0 is Some && ve.1 is Some ==> ve.0->0 < ve.1->0)
            &&& (ve.2 is Some && ve.3 is Some ==> ve.2->0 < ve.3->0)
        }),
{
    let ve = g.vertex_edges_spec(i, j);
    if ve.0 is Some && ve.1 is Some {
        assert((j - 1) * (g.rows - 1) + (g.rows - 1) == j * (g.rows - 1)) by (nonlinear_arith);
    }
    if ve.2 is Some && ve.3 is Some {
        assert((i - 1) * (g.cols - 1) + (g.cols - 1) == i * (g.cols - 1)) by (nonlinear_arith);
    }
}

/// Every edge that `vertex_edges(i, j)` lists has grid point (i, j) as an end point.
pub proof fn law_vertex_edges_touch_vertex(g: Grid, i: int, j: int)
    requires
        g.wf(),
        0 <= i <= g.rows,
        0 <= j <= g.cols,
    ensures
        ({
            let ve = g.vertex_edges_spec(i, j);
            let v = g.vertex_at(i, j);
            &&& (ve.0 matches Some(e) ==> (g.edge_vertices_of(e).0 == v || g.edge_vertices_of(e).1
                == v))
            &&& (ve.1 matches Some(e) ==> (g.edge_vertices_of(e).0 == v || g.edge_vertices_of(e).1
                == v))
            &&& (ve.2 matches Some(e) ==> (g.edge_vertices_of(e).0 == v || g.edge_vertices_of(e).1
                == v))
            &&& (ve.3 matches Some(e) ==> (g.edge_vertices_of(e).0 == v || g.edge_vertices_of(e).1
                == v))
        }),
{
    if i >= 1 && i < g.rows && j >= 1 {
        law_decode_h_edge(g, i - 1, j - 1);
    }
    if i >= 1 && i < g.rows && j < g.cols {
        law_decode_h_edge(g, i - 1, j);
    }
    if i >= 1 && j >= 1 && j < g.cols {
        law_decode_v_edge(g, i - 1, j - 1);
    }
    if i < g.rows && j >= 1 && j < g.cols {
        law_decode_v_edge(g, i, j - 1);
    }
}

/// Both end points of every edge list that edge among their `vertex_edges`.
pub proof fn law_edge_listed_at_its_vertices(g: Grid, e: int)
    requires
        g.wf(),
        0 <= e < g.n_edges(),
    ensures
        ({
            let (v1, v2) = g.edge_vertices_of(e);
            let w = g.cols + 1;
            let ve1 = g.vertex_edges_spec(v1 / w, v1 % w);
            let ve2 = g.vertex_edges_spec(v2 / w, v2 % w);
            &&& (ve1.0 == Some(e) || ve1.1 == Some(e) || ve1.2 == Some(e) || ve1.3 == Some(e))
            &&& (ve2.0 == Some(e) || ve2.1 == Some(e) || ve2.2 == Some(e) || ve2.3 == Some(e))
        }),
{
    let w = g.cols + 1;
    let nh = g.n_h_edges();
    g.lemma_sizes();
    if e < nh {
        lemma_div_mod_in_box(e, g.cols as int, g.rows - 1);
        assert((g.rows - 1) * (g.cols as int) == (g.cols as int) * (g.rows - 1)) by (nonlinear_arith);
        let r = e % (g.rows - 1);
        let c = e / (g.rows - 1);
        assert(e == g.h_edge_at(r, c));
        lemma_index_div_mod(r + 1, c, w);
        lemma_index_div_mod(r + 1, c + 1, w);
    } else {
        assert(g.cols > 1) by {
            if g.cols <= 1 {
                assert(g.n_v_edges() == 0);
            }
        }
        lemma_div_mod_in_box(e - nh, g.rows as int, g.cols - 1);
        let r = (e - nh) / (g.cols - 1);
        let c = (e - nh) % (g.cols - 1);
        assert(e == g.v_edge_at(r, c));
        lemma_index_div_mod(r, c + 1, w);
        lemma_index_div_mod(r + 1, c + 1, w);
    }
}

} // verus!
