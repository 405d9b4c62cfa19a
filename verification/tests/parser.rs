use aog::parser::{ParseError, Parser};
use aog::types::{CellClue, EdgeClueKind, PalisadeKind};

fn parse_str(s: &str) -> Result<Parser, ParseError> {
    let mut p = Parser::new();
    p.parse(s.as_bytes())?;
    Ok(p)
}

fn error_text(s: &str) -> String {
    let mut p = Parser::new();
    match p.parse(s.as_bytes()) {
        Ok(()) => String::new(),
        Err(e) => e.0,
    }
}

#[test]
fn empty_input_errors() {
    let mut p = Parser::new();
    assert!(p.parse("".as_bytes()).is_err());
}

#[test]
fn no_grid_errors() {
    let mut p = Parser::new();
    assert!(p.parse("minimum 3\n".as_bytes()).is_err());
}

#[test]
fn simple_grid_dimensions() {
    let p = parse_str("\
+---+---+
| _ . _ |
+ . + . +
| _ . _ |
+---+---+
")
    .unwrap();
    assert_eq!(p.grid.rows, 2);
    assert_eq!(p.grid.cols, 2);
    assert_eq!(p.grid.total_existing_cells(), 4);
}

#[test]
fn precision_sets_min_max() {
    let p = parse_str("\
precision 4
+---+---+
| _ . _ |
+ . + . +
| _ . _ |
+---+---+
")
    .unwrap();
    assert_eq!(p.puzzle.rules.minimum, Some(4));
    assert_eq!(p.puzzle.rules.maximum, Some(4));
}

#[test]
fn area_clue_from_cell() {
    let p = parse_str("\
+---+---+
| 3 . _ |
+ . + . +
| _ . _ |
+---+---+
")
    .unwrap();
    assert!(p.puzzle.cell_clues.iter().any(|cl| matches!(cl, CellClue::Area { value: 3, .. })));
}

#[test]
fn rose_clue_from_cell() {
    let p = parse_str("\
+---+---+
| B . _ |
+ . + . +
| _ . _ |
+---+---+
")
    .unwrap();
    let rose = p.puzzle.cell_clues.iter().find(|cl| matches!(cl, CellClue::Rose { .. }));
    let CellClue::Rose { symbol, .. } = rose.unwrap() else {
        panic!("expected Rose");
    };
    assert_eq!(*symbol, 1);
}

#[test]
fn palisade_clue_from_cell() {
    let p = parse_str("\
+----+---+
| p3 . _ |
+ .  + . +
| _  . _ |
+----+---+
")
    .unwrap();
    let pal = p.puzzle.cell_clues.iter().find(|cl| matches!(cl, CellClue::Palisade { .. }));
    let CellClue::Palisade { kind, .. } = pal.unwrap() else {
        panic!("expected Palisade");
    };
    assert_eq!(*kind, PalisadeKind::Three);
}

#[test]
fn edge_clue_from_grid() {
    let p = parse_str("\
+---+---+
| _ . _ |
+ . +-d-+
| _ . _ |
+---+---+
")
    .unwrap();
    assert!(p.puzzle.edge_clues.iter().any(|ec| matches!(ec.kind, EdgeClueKind::Delta)));
}

#[test]
fn v_separator_edge_clue() {
    let p = parse_str("\
+---+---+
| _ g _ |
+ . + . +
| _ . _ |
+---+---+
")
    .unwrap();
    assert!(p.puzzle.edge_clues.iter().any(|ec| matches!(ec.kind, EdgeClueKind::Gemini)));
}

#[test]
fn missing_cell_marks_not_exists() {
    let p = parse_str("\
+---+---+---+
| _ . _ .   |
+ . + . + . +
| _ . _ . _ |
+---+---+---+
")
    .unwrap();
    assert!(!p.grid.cell_exists[p.grid.cell_id(0, 2)]);
    assert!(p.grid.cell_exists[p.grid.cell_id(0, 0)]);
}

#[test]
fn shape_bank_named() {
    let p = parse_str("\
shape bank T L
+---+---+---+---+
| _ . _ . _ |
+ . + . + . +
| _ . _ . _ |
+---+---+---+---+
")
    .unwrap();
    assert_eq!(p.puzzle.rules.shape_bank.len(), 2);
}

#[test]
fn rules_flags() {
    let p = parse_str("\
bricky
mingle shape
solitude
+---+---+
| _ . _ |
+ . + . +
| _ . _ |
+---+---+
")
    .unwrap();
    assert!(p.puzzle.rules.bricky);
    assert!(p.puzzle.rules.mingle_shape);
    assert!(p.puzzle.rules.solitude);
}

#[test]
fn supplementary_vertex_clue() {
    let p = parse_str("\
+---+---+---+
| _ . _ . _ |
+ . + . + . +
| _ . _ . _ |
+ . + . + . +
| _ . _ . _ |
+---+---+---+
vertex b2 3
")
    .unwrap();
    assert_eq!(p.puzzle.vertex_clues.len(), 1);
    assert_eq!(p.puzzle.vertex_clues[0].value, 3);
    assert_eq!(p.puzzle.vertex_clues[0].vertex, p.grid.vertex(1, 1));
}

#[test]
fn comment_stripped() {
    let p = parse_str("\
bricky # make it bricky
+---+---+
| _ . _ |
+ . + . +
| _ . _ |
+---+---+
")
    .unwrap();
    assert!(p.puzzle.rules.bricky);
}

#[test]
fn polyomino_inline_cell() {
    let p = parse_str("\
+---+---+
| T . _ |
+ . + . +
| _ . _ |
+---+---+
")
    .unwrap();
    let poly = p.puzzle.cell_clues.iter().find(|cl| matches!(cl, CellClue::Polyomino { .. }));
    let CellClue::Polyomino { shape, .. } = poly.unwrap() else {
        panic!("expected Polyomino");
    };
    assert_eq!(shape.cells.len(), 4);
}

#[test]
fn polyomino_supplementary_inline() {
    let p = parse_str("\
+---+---+---+
| _ . _ . _ |
+ . + . + . +
| _ . _ . _ |
+ . + . + . +
| _ . _ . _ |
+---+---+---+
cell a1 poly T
")
    .unwrap();
    let poly = p.puzzle.cell_clues.iter().find(|cl| matches!(cl, CellClue::Polyomino { .. }));
    let CellClue::Polyomino { shape, cell, .. } = poly.unwrap() else {
        panic!("expected Polyomino");
    };
    assert_eq!(*cell, p.grid.cell_id(0, 0));
    assert_eq!(shape.cells.len(), 4);
}

#[test]
fn polyomino_supplementary_multiline_still_works() {
    let p = parse_str("\
+---+---+---+
| _ . _ . _ |
+ . + . + . +
| _ . _ . _ |
+ . + . + . +
| _ . _ . _ |
+---+---+---+
cell a1 poly
###
.#.
")
    .unwrap();
    let poly = p.puzzle.cell_clues.iter().find(|cl| matches!(cl, CellClue::Polyomino { .. }));
    let CellClue::Polyomino { shape, .. } = poly.unwrap() else {
        panic!("expected Polyomino");
    };
    assert_eq!(shape.cells.len(), 4);
}

#[test]
fn multi_digit_area_clue() {
    let p = parse_str("\
+---+---+
|18 . _ |
+ . + . +
| _ . _ |
+---+---+
")
    .unwrap();
    assert!(p.puzzle.cell_clues.iter().any(|cl| matches!(cl, CellClue::Area { value: 18, .. })));
}

#[test]
fn polyomino_inline_cell_two_letter() {
    let p = parse_str("\
+---+---+
|TT . _ |
+ . + . +
| _ . _ |
+---+---+
")
    .unwrap();
    let poly = p.puzzle.cell_clues.iter().find(|cl| matches!(cl, CellClue::Polyomino { .. }));
    let CellClue::Polyomino { shape, .. } = poly.unwrap() else {
        panic!("expected Polyomino");
    };
    assert_eq!(shape.cells.len(), 5);
}

#[test]
fn error_messages_name_the_problem() {
    assert_eq!(error_text(""), "empty input");
    assert_eq!(error_text("   \n\n"), "empty input");
    assert_eq!(error_text("minimum 3\n"), "no grid found");
    assert_eq!(error_text("+---+---+\n+---+---+\n"), "no cell rows found");
}

#[test]
fn edge_and_cell_supplementary_clues() {
    let p = parse_str("\
+---+---+---+
| _ . _ . _ |
+ . + . + . +
| _ . _ . _ |
+---+---+---+
edge ha1 <2>
edge va1 <
cell b3 area 4
cell b2 rose C
cell a3 compass e1 n0
cell a2 palisade p=
")
    .unwrap();
    let h = p.grid.h_edge(0, 0);
    let v = p.grid.v_edge(0, 0);
    assert!(p.puzzle.edge_clues.iter().any(|ec| ec.edge == h && ec.kind == EdgeClueKind::Diff { value: 2 }));
    assert!(p
        .puzzle
        .edge_clues
        .iter()
        .any(|ec| ec.edge == v && ec.kind == EdgeClueKind::Inequality { smaller_first: true }));
    assert!(p.pre_cut_edges.contains(&h) && p.pre_cut_edges.contains(&v));
    assert!(p
        .puzzle
        .cell_clues
        .iter()
        .any(|cl| matches!(cl, CellClue::Area { value: 4, cell } if *cell == p.grid.cell_id(1, 2))));
    assert!(p
        .puzzle
        .cell_clues
        .iter()
        .any(|cl| matches!(cl, CellClue::Rose { symbol: 2, cell } if *cell == p.grid.cell_id(1, 1))));
    assert!(p.puzzle.cell_clues.iter().any(|cl| matches!(cl, CellClue::Compass { compass, .. }
        if compass.e == Some(1) && compass.n == Some(0) && compass.w.is_none())));
    assert!(p
        .puzzle
        .cell_clues
        .iter()
        .any(|cl| matches!(cl, CellClue::Palisade { kind: PalisadeKind::Opposite, .. })));
}

#[test]
fn compact_compass_and_watchtower_marks() {
    let p = parse_str("\
+----+---+
|N1E2. _ |
+ .  ! . +
| _  . _ |
+----+---+
")
    .unwrap();
    assert!(p.puzzle.cell_clues.iter().any(|cl| matches!(cl, CellClue::Compass { compass, .. }
        if compass.n == Some(1) && compass.e == Some(2))));
    assert_eq!(p.puzzle.vertex_clues.len(), 1);
    assert_eq!(p.puzzle.vertex_clues[0].value, 1);
    assert_eq!(p.puzzle.vertex_clues[0].vertex, p.grid.vertex(1, 1));
}
