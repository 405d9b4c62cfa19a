use aog::grid::Grid;
use aog::parser::Parser;
use aog::solver::validation::validate_parsed_solution;
use aog::solver::Solver;
use aog::types::{
    CellClue, CompassData, EdgeClue, EdgeClueKind, EdgeId, EdgeState, PalisadeKind, Puzzle, VertexClue,
};

const GRID_2X2: &str = "\
+---+---+
| _ . _ |
+ . + . +
| _ . _ |
+---+---+
";

const GRID_3X3: &str = "\
+---+---+---+
| _ . _ . _ |
+ . + . + . +
| _ . _ . _ |
+ . + . + . +
| _ . _ . _ |
+---+---+---+
";

fn parse(input: &str) -> (Puzzle, Grid, Vec<EdgeId>) {
    let mut p = Parser::new();
    p.parse(input.as_bytes()).unwrap();
    (p.puzzle, p.grid, p.pre_cut_edges)
}

fn make_solver(input: &str) -> Solver {
    let (puzzle, grid, pre) = parse(input);
    let mut s = Solver::new(puzzle, grid);
    for e in pre {
        s.mark_pre_cut(e);
    }
    s
}

/// Every edge decided: the given edges cut, all others uncut.
fn solution(grid: &Grid, cut: &[EdgeId]) -> Vec<EdgeState> {
    (0..grid.num_edges())
        .map(|e| if cut.contains(&e) { EdgeState::Cut } else { EdgeState::Uncut })
        .collect()
}

#[test]
fn compute_pieces_all_uncut() {
    let mut s = make_solver(GRID_2X2);
    for e in 0..s.grid.num_edges() {
        if s.edges[e] == EdgeState::Unknown {
            let _ = s.set_edge(e, EdgeState::Uncut);
        }
    }
    let pieces = s.compute_pieces();
    assert_eq!(pieces.len(), 1);
    assert_eq!(pieces[0].area, 4);
}

#[test]
fn compute_pieces_all_cut() {
    let mut s = make_solver(GRID_2X2);
    for e in 0..s.grid.num_edges() {
        if s.edges[e] == EdgeState::Unknown {
            let _ = s.set_edge(e, EdgeState::Cut);
        }
    }
    let pieces = s.compute_pieces();
    assert_eq!(pieces.len(), 4);
    assert!(pieces.iter().all(|p| p.area == 1));
}

#[test]
fn compute_pieces_rows_in_order_of_first_cell() {
    let mut s = make_solver(GRID_2X2);
    let h0 = s.grid.h_edge(0, 0);
    let h1 = s.grid.h_edge(0, 1);
    let v = s.grid.v_edge(1, 0);
    for e in [h0, h1] {
        let _ = s.set_edge(e, EdgeState::Cut);
    }
    let _ = s.set_edge(v, EdgeState::Uncut);
    let pieces = s.compute_pieces();
    assert_eq!(pieces.len(), 2);
    assert_eq!(pieces[0].cells, vec![0, 1]);
    assert_eq!(pieces[1].cells, vec![2, 3]);
    assert_eq!(pieces[1].area, 2);
    assert_eq!(pieces[0].canonical, pieces[1].canonical);
}

#[test]
fn compute_pieces_skips_missing_cells() {
    let mut s = make_solver(
        "\
+---+---+---+
| _ . _ .   |
+ . + . + . +
| _ . _ . _ |
+---+---+---+
",
    );
    for e in 0..s.grid.num_edges() {
        if s.edges[e] == EdgeState::Unknown {
            let _ = s.set_edge(e, EdgeState::Uncut);
        }
    }
    let pieces = s.compute_pieces();
    assert_eq!(pieces.len(), 1);
    assert_eq!(pieces[0].cells, vec![0, 1, 3, 4, 5]);
    assert_eq!(pieces[0].area, 5);
}

#[test]
fn parsed_solution_with_area_clue() {
    let (mut puzzle, grid, pre) = parse(GRID_2X2);
    puzzle.cell_clues.push(CellClue::Area { cell: 0, value: 2 });
    let rows_cut = [grid.h_edge(0, 0), grid.h_edge(0, 1)];
    let cols_cut = [grid.v_edge(0, 0), grid.v_edge(1, 0)];
    let one_piece = solution(&grid, &[]);
    assert!(validate_parsed_solution(puzzle.clone(), grid.clone(), &pre, &solution(&grid, &rows_cut)));
    assert!(validate_parsed_solution(puzzle.clone(), grid.clone(), &pre, &solution(&grid, &cols_cut)));
    assert!(!validate_parsed_solution(puzzle, grid, &pre, &one_piece));
}

#[test]
fn parsed_solution_with_undecided_edge_fails() {
    let (puzzle, grid, pre) = parse(GRID_2X2);
    let mut sol = solution(&grid, &[]);
    sol[grid.v_edge(0, 0)] = EdgeState::Unknown;
    assert!(!validate_parsed_solution(puzzle.clone(), grid.clone(), &pre, &sol));
    assert!(validate_parsed_solution(puzzle, grid.clone(), &pre, &solution(&grid, &[])));
}

#[test]
fn minimum_rule_checked() {
    let (mut puzzle, grid, pre) = parse(GRID_2X2);
    puzzle.rules.minimum = Some(2);
    let all_cut: Vec<EdgeId> = (0..grid.num_edges()).collect();
    assert!(!validate_parsed_solution(puzzle.clone(), grid.clone(), &pre, &solution(&grid, &all_cut)));
    let rows_cut = [grid.h_edge(0, 0), grid.h_edge(0, 1)];
    assert!(validate_parsed_solution(puzzle, grid.clone(), &pre, &solution(&grid, &rows_cut)));
}

#[test]
fn mismatch_rule_rejects_equal_shapes() {
    let (mut puzzle, grid, pre) = parse(GRID_2X2);
    puzzle.rules.mismatch = true;
    let rows_cut = [grid.h_edge(0, 0), grid.h_edge(0, 1)];
    assert!(!validate_parsed_solution(puzzle.clone(), grid.clone(), &pre, &solution(&grid, &rows_cut)));
    // A domino and two monominoes still repeat a shape.
    let l_cut = [grid.h_edge(0, 0), grid.h_edge(0, 1), grid.v_edge(1, 0)];
    assert!(!validate_parsed_solution(puzzle.clone(), grid.clone(), &pre, &solution(&grid, &l_cut)));
    // One piece alone has no twin.
    assert!(validate_parsed_solution(puzzle, grid.clone(), &pre, &solution(&grid, &[])));
}

#[test]
fn palisade_clue_checked_in_the_middle() {
    let (mut puzzle, grid, pre) = parse(GRID_3X3);
    let centre = grid.cell_id(1, 1);
    puzzle.cell_clues.push(CellClue::Palisade { cell: centre, kind: PalisadeKind::All });
    let sides: Vec<EdgeId> = vec![grid.h_edge(0, 1), grid.h_edge(1, 1), grid.v_edge(1, 0), grid.v_edge(1, 1)];
    assert!(validate_parsed_solution(puzzle.clone(), grid.clone(), &pre, &solution(&grid, &sides)));
    assert!(!validate_parsed_solution(puzzle.clone(), grid.clone(), &pre, &solution(&grid, &sides[..3])));
    let mut adjacent = puzzle.clone();
    adjacent.cell_clues[0] = CellClue::Palisade { cell: centre, kind: PalisadeKind::Adjacent };
    // North and west cut: two adjacent sides.
    let nw = [grid.h_edge(0, 1), grid.v_edge(1, 0)];
    assert!(validate_parsed_solution(adjacent.clone(), grid.clone(), &pre, &solution(&grid, &nw)));
    // North and south cut: opposite sides.
    let ns = [grid.h_edge(0, 1), grid.h_edge(1, 1)];
    assert!(!validate_parsed_solution(adjacent, grid.clone(), &pre, &solution(&grid, &ns)));
}

#[test]
fn compass_clue_counts_cells_by_direction() {
    let (mut puzzle, grid, pre) = parse(GRID_2X2);
    let compass = CompassData { e: Some(1), w: None, s: Some(1), n: Some(0) };
    puzzle.cell_clues.push(CellClue::Compass { cell: 0, compass });
    // One piece of four cells: (0, 1) and (1, 1) lie east of (0, 0).
    assert!(!validate_parsed_solution(puzzle.clone(), grid.clone(), &pre, &solution(&grid, &[])));
    // Top row cut from the bottom row: one cell east, none south.
    let rows_cut = [grid.h_edge(0, 0), grid.h_edge(0, 1)];
    assert!(!validate_parsed_solution(puzzle.clone(), grid.clone(), &pre, &solution(&grid, &rows_cut)));
    // An L of (0,0), (0,1), (1,0): east 1, south 1, north 0.
    let l_cut = [grid.h_edge(0, 1), grid.v_edge(1, 0)];
    assert!(validate_parsed_solution(puzzle, grid.clone(), &pre, &solution(&grid, &l_cut)));
}

#[test]
fn edge_clues_checked() {
    let (mut puzzle, grid, pre) = parse(GRID_2X2);
    let v0 = grid.v_edge(0, 0);
    let v1 = grid.v_edge(1, 0);
    puzzle.edge_clues.push(EdgeClue { edge: v0, kind: EdgeClueKind::Gemini });
    let cols_cut = [v0, v1];
    assert!(validate_parsed_solution(puzzle.clone(), grid.clone(), &pre, &solution(&grid, &cols_cut)));
    // The clue's edge must be cut.
    assert!(!validate_parsed_solution(puzzle.clone(), grid.clone(), &pre, &solution(&grid, &[])));
    let mut delta = puzzle.clone();
    delta.edge_clues[0].kind = EdgeClueKind::Delta;
    assert!(!validate_parsed_solution(delta, grid.clone(), &pre, &solution(&grid, &cols_cut)));
    let mut diff = puzzle.clone();
    diff.edge_clues[0].kind = EdgeClueKind::Diff { value: 2 };
    // Left column (2 cells) against the single cell (0, 1), the other cut away.
    let split = [v0, v1, grid.h_edge(0, 1)];
    assert!(!validate_parsed_solution(diff.clone(), grid.clone(), &pre, &solution(&grid, &split)));
    diff.edge_clues[0].kind = EdgeClueKind::Diff { value: 1 };
    assert!(validate_parsed_solution(diff, grid.clone(), &pre, &solution(&grid, &split)));
    let mut ineq = puzzle;
    ineq.edge_clues[0].kind = EdgeClueKind::Inequality { smaller_first: false };
    assert!(validate_parsed_solution(ineq.clone(), grid.clone(), &pre, &solution(&grid, &split)));
    ineq.edge_clues[0].kind = EdgeClueKind::Inequality { smaller_first: true };
    assert!(!validate_parsed_solution(ineq, grid.clone(), &pre, &solution(&grid, &split)));
}

#[test]
fn watchtower_counts_distinct_pieces() {
    let (mut puzzle, grid, pre) = parse(GRID_2X2);
    puzzle.vertex_clues.push(VertexClue { vertex: grid.vertex(1, 1), value: 2 });
    let rows_cut = [grid.h_edge(0, 0), grid.h_edge(0, 1)];
    assert!(validate_parsed_solution(puzzle.clone(), grid.clone(), &pre, &solution(&grid, &rows_cut)));
    assert!(!validate_parsed_solution(puzzle.clone(), grid.clone(), &pre, &solution(&grid, &[])));
    let all_cut: Vec<EdgeId> = (0..grid.num_edges()).collect();
    assert!(!validate_parsed_solution(puzzle, grid.clone(), &pre, &solution(&grid, &all_cut)));
}

#[test]
fn rose_window_one_rose_of_each_symbol_per_piece() {
    let (mut puzzle, grid, pre) = parse(GRID_2X2);
    puzzle.cell_clues.push(CellClue::Rose { cell: 0, symbol: 1 });
    puzzle.cell_clues.push(CellClue::Rose { cell: 3, symbol: 1 });
    let rows_cut = [grid.h_edge(0, 0), grid.h_edge(0, 1)];
    assert!(validate_parsed_solution(puzzle.clone(), grid.clone(), &pre, &solution(&grid, &rows_cut)));
    assert!(!validate_parsed_solution(puzzle, grid.clone(), &pre, &solution(&grid, &[])));
}
