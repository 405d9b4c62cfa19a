use vstd::prelude::*;

verus! {

pub type CellId = usize;

pub type EdgeId = usize;

pub type VertexId = usize;

/// State of one grid edge during solving.
#[derive(Clone, Copy, PartialEq, Eq, Debug, Structural)]
pub enum EdgeState {
    Unknown,
    Cut,
    Uncut,
}

/// A polyomino: its bounding box and its cells, relative to the top-left corner.
/// Shapes compare by (height, width, cells).
#[derive(Clone, Debug, Default, PartialEq, Eq, PartialOrd, Ord, Hash)]
pub struct Shape {
    pub height: i32,
    pub width: i32,
    pub cells: Vec<(i32, i32)>,
}

/// One piece of a solution.
#[derive(Clone, Debug, Default)]
pub struct Piece {
    pub cells: Vec<CellId>,
    pub area: usize,
    pub canonical: Shape,
}

/// Compass clue: number of piece cells east, west, south and north of the clue cell.
#[derive(Clone, Copy, Debug, Default, PartialEq, Eq, Structural)]
pub struct CompassData {
    pub e: Option<usize>,
    pub w: Option<usize>,
    pub s: Option<usize>,
    pub n: Option<usize>,
}

/// Palisade clue: how the 4 edges around a cell are cut.
#[derive(Clone, Copy, PartialEq, Eq, Debug, Structural)]
pub enum PalisadeKind {
    /// p0: no edges cut
    Zero,
    /// p1: exactly one edge cut
    One,
    /// p=: two opposite edges cut
    Opposite,
    /// p2: two adjacent edges cut
    Adjacent,
    /// p3: three edges cut
    Three,
    /// p4: all four edges cut
    All,
}

/// The bit of the `i`-th side in clockwise order (top, right, bottom, left),
/// in the bit layout of `cell_edges`: top = bit 0, bottom = bit 1, left = bit 2, right = bit 3.
pub open spec fn clockwise_bit(i: int) -> u8 {
    let k = i % 4;
    if k == 0 {
        1u8
    } else if k == 1 {
        8u8
    } else if k == 2 {
        2u8
    } else {
        4u8
    }
}

/// The mask of the side reached after `i` clockwise quarter turns from the
/// top: the top (1), the right (8), the bottom (2), the left (4).
pub open spec fn side_mask(i: int) -> u8 {
    if i % 4 == 0 {
        1u8
    } else if i % 4 == 1 {
        8u8
    } else if i % 4 == 2 {
        2u8
    } else {
        4u8
    }
}

impl PalisadeKind {
    pub open spec fn spec_cut_count(self) -> usize {
        match self {
            PalisadeKind::Zero => 0,
            PalisadeKind::One => 1,
            PalisadeKind::Opposite => 2,
            PalisadeKind::Adjacent => 2,
            PalisadeKind::Three => 3,
            PalisadeKind::All => 4,
        }
    }

    /// (expected cut count, mask of cut sides) of the clue turned `rot` quarter turns clockwise.
    pub open spec fn spec_pattern(self, rot: int) -> (usize, u8) {
        match self {
            PalisadeKind::Zero => (0, 0u8),
            PalisadeKind::One => (1, clockwise_bit(rot)),
            PalisadeKind::Opposite => (2, (clockwise_bit(rot) | clockwise_bit(rot + 2)) as u8),
            PalisadeKind::Adjacent => (2, (clockwise_bit(rot) | clockwise_bit(rot + 1)) as u8),
            PalisadeKind::Three => (3, (15u8 - clockwise_bit(rot)) as u8),
            PalisadeKind::All => (4, 15u8),
        }
    }

    pub fn cut_count(self) -> (n: usize)
        ensures
            n == self.spec_cut_count(),
    {
        match self {
            PalisadeKind::Zero => 0,
            PalisadeKind::One => 1,
            PalisadeKind::Opposite | PalisadeKind::Adjacent => 2,
            PalisadeKind::Three => 3,
            PalisadeKind::All => 4,
        }
    }

    /// Returns (expected_cut_count, edge_mask) for a given rotation.
    /// The mask bits correspond to the cell_edges ordering: top(0), bottom(1), left(2), right(3).
    /// Rotations go clockwise: top → right → bottom → left.
    pub fn pattern_at_rotation(self, rot: usize) -> (res: (usize, u8))
        requires
            self == PalisadeKind::Opposite ==> rot + 2 <= usize::MAX,
            self == PalisadeKind::Adjacent ==> rot + 1 <= usize::MAX,
        ensures
            res == self.spec_pattern(rot as int),
            self == PalisadeKind::Zero ==> res == (0usize, 0u8),
            self == PalisadeKind::One ==> res == (1usize, side_mask(rot as int)),
            self == PalisadeKind::Opposite ==> res == (2usize, if rot % 2 == 0 {
                3u8
            } else {
                12u8
            }),
            self == PalisadeKind::Adjacent ==> res.0 == 2 && res.1 == side_mask(rot as int) + side_mask(rot + 1),
            self == PalisadeKind::Three ==> res.0 == 3 && res.1 == 15 - side_mask(rot as int),
            self == PalisadeKind::All ==> res == (4usize, 15u8),
    {
        match self {
            PalisadeKind::Zero => (0, 0),
            PalisadeKind::One => (1, side_bit(rot)),
            PalisadeKind::Opposite => {
                let a = side_bit(rot);
                let b = side_bit(rot + 2);
                let m = a | b;
                assert((a == 1u8 && b == 2u8) || (a == 2u8 && b == 1u8) ==> m == 3u8) by (bit_vector)
                    requires
                        m == a | b,
                ;
                assert((a == 8u8 && b == 4u8) || (a == 4u8 && b == 8u8) ==> m == 12u8) by (bit_vector)
                    requires
                        m == a | b,
                ;
                (2, m)
            },
            PalisadeKind::Adjacent => {
                let a = side_bit(rot);
                let b = side_bit(rot + 1);
                let m = a | b;
                assert(a != b && (a == 1u8 || a == 2u8 || a == 4u8 || a == 8u8) && (b == 1u8 || b == 2u8 || b == 4u8
                    || b == 8u8) ==> m == a + b) by (bit_vector)
                    requires
                        m == a | b,
                ;
                (2, m)
            },
            PalisadeKind::Three => {
                let b = side_bit(rot);
                let m: u8 = 0x0F & !b;
                assert(m == 15u8 - b) by (bit_vector)
                    requires
                        m == 0x0Fu8 & !b,
                        b == 1u8 || b == 2u8 || b == 4u8 || b == 8u8,
                ;
                (3, m)
            },
            PalisadeKind::All => (4, 0x0F),
        }
    }
}

/// The bit of the `i`-th side in clockwise order (see `clockwise_bit`).
fn side_bit(i: usize) -> (b: u8)
    ensures
        b == clockwise_bit(i as int),
        b == 1u8 || b == 2u8 || b == 4u8 || b == 8u8,
{
    let k = i % 4;
    if k == 0 {
        1
    } else if k == 1 {
        8
    } else if k == 2 {
        2
    } else {
        4
    }
}

/// A clue written on a cell.
#[derive(Clone, Debug)]
pub enum CellClue {
    Area { cell: CellId, value: usize },
    Rose { cell: CellId, symbol: u8 },
    Polyomino { cell: CellId, shape: Shape },
    Palisade { cell: CellId, kind: PalisadeKind },
    Compass { cell: CellId, compass: CompassData },
}

impl CellClue {
    pub open spec fn spec_cell(&self) -> CellId {
        match self {
            CellClue::Area { cell, .. } => *cell,
            CellClue::Rose { cell, .. } => *cell,
            CellClue::Polyomino { cell, .. } => *cell,
            CellClue::Palisade { cell, .. } => *cell,
            CellClue::Compass { cell, .. } => *cell,
        }
    }

    pub fn cell(&self) -> (c: CellId)
        ensures
            c == self.spec_cell(),
    {
        match self {
            CellClue::Area { cell, .. } => *cell,
            CellClue::Rose { cell, .. } => *cell,
            CellClue::Polyomino { cell, .. } => *cell,
            CellClue::Palisade { cell, .. } => *cell,
            CellClue::Compass { cell, .. } => *cell,
        }
    }
}

/// Edge clue: semantic meaning of a cut edge.
#[derive(Clone, Copy, PartialEq, Eq, Debug, Structural)]
pub enum EdgeClueKind {
    Delta,
    Gemini,
    /// true = cell with smaller row/col index has smaller area
    Inequality { smaller_first: bool },
    Diff { value: usize },
}

#[derive(Clone, Copy, Debug, PartialEq, Eq, Structural)]
pub struct EdgeClue {
    pub edge: EdgeId,
    pub kind: EdgeClueKind,
}

#[derive(Clone, Copy, Debug, PartialEq, Eq, Structural)]
pub struct VertexClue {
    pub vertex: VertexId,
    pub value: usize,
}

/// Rules that apply to the whole puzzle.
#[derive(Clone, Debug, Default)]
pub struct GlobalRules {
    pub shape_bank: Vec<Shape>,
    pub minimum: Option<usize>,
    pub maximum: Option<usize>,
    pub mingle_shape: bool,
    pub size_separation: bool,
    pub mismatch: bool,
    pub match_all: bool,
    pub solitude: bool,
    pub boxy: bool,
    pub non_boxy: bool,
    pub bricky: bool,
    pub loopy: bool,
}

/// All clues and rules of one puzzle.
#[derive(Clone, Debug, Default)]
pub struct Puzzle {
    pub cell_clues: Vec<CellClue>,
    pub edge_clues: Vec<EdgeClue>,
    pub vertex_clues: Vec<VertexClue>,
    pub rules: GlobalRules,
}

} // verus!
