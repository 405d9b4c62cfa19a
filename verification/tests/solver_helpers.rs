use aog::grid::Grid;
use aog::parser::Parser;
use aog::polyomino;
use aog::solver::Solver;
use aog::types::{CellClue, GlobalRules, Puzzle};

fn make_solver(input: &str) -> Solver {
    let mut p = Parser::new();
    p.parse(input.as_bytes()).unwrap();
    let mut s = Solver::new(p.puzzle, p.grid);
    for e in p.pre_cut_edges {
        s.mark_pre_cut(e);
    }
    s
}

#[test]
fn apply_sigma_identity() {
    assert_eq!(Solver::apply_sigma(0, false, 3, 5), (3, 5));
}

#[test]
fn apply_sigma_rotations() {
    let (r, c) = (2, 3);
    let mut p = (r, c);
    for _ in 0..4 {
        p = Solver::apply_sigma(1, false, p.0, p.1);
    }
    assert_eq!(p, (r, c), "4x R90 should return to original point");
}

#[test]
fn apply_sigma_flip() {
    let result = Solver::apply_sigma(0, true, 3, 5);
    assert_eq!(result, (3, -5));
}

#[test]
fn apply_sigma_all_symmetries() {
    assert_eq!(Solver::apply_sigma(0, false, 1, 0), (1, 0));
    assert_eq!(Solver::apply_sigma(2, false, 3, 4), (-3, -4));
    assert_eq!(Solver::apply_sigma(1, true, 1, 0), (0, 1));
}

#[test]
fn apply_sigma_quarter_turns() {
    assert_eq!(Solver::apply_sigma(1, false, 2, 3), (3, -2));
    assert_eq!(Solver::apply_sigma(3, false, 2, 3), (-3, 2));
}

#[test]
fn is_connected_set_connected() {
    let adj = vec![vec![1], vec![0, 2], vec![1, 3], vec![2]];
    let in_set = vec![true, true, true, true];
    let existing = vec![0, 1, 2, 3];
    assert!(Solver::is_connected_set(&adj, &in_set, &existing));
}

#[test]
fn is_connected_set_disconnected() {
    let adj = vec![vec![1], vec![0], vec![3], vec![2]];
    let in_set = vec![true, true, true, true];
    let existing = vec![0, 1, 2, 3];
    assert!(!Solver::is_connected_set(&adj, &in_set, &existing));
}

#[test]
fn is_connected_set_empty() {
    let adj: Vec<Vec<usize>> = vec![vec![], vec![]];
    let in_set = vec![false, false];
    let existing = vec![0, 1];
    assert!(Solver::is_connected_set(&adj, &in_set, &existing));
}

#[test]
fn is_connected_set_ignores_cells_outside_the_set() {
    let adj = vec![vec![1], vec![0, 2], vec![1]];
    let in_set = vec![true, false, true];
    let existing = vec![0, 1, 2];
    assert!(!Solver::is_connected_set(&adj, &in_set, &existing));
}

#[test]
fn divisors_in_range_basic() {
    assert_eq!(Solver::divisors_in_range(12, 2, 6), vec![2, 3, 4, 6]);
}

#[test]
fn divisors_in_range_narrow() {
    assert_eq!(Solver::divisors_in_range(12, 3, 4), vec![3, 4]);
}

#[test]
fn divisors_in_range_no_match() {
    assert_eq!(Solver::divisors_in_range(7, 2, 3), Vec::<usize>::new());
}

#[test]
fn divisors_in_range_excludes_self() {
    assert_eq!(Solver::divisors_in_range(4, 2, 10), vec![2]);
}

#[test]
fn divisors_in_range_prime() {
    assert_eq!(Solver::divisors_in_range(7, 2, 10), Vec::<usize>::new());
}

#[test]
fn divisors_in_range_square_and_zero() {
    assert_eq!(Solver::divisors_in_range(36, 1, 36), vec![1, 2, 3, 4, 6, 9, 12, 18]);
    assert_eq!(Solver::divisors_in_range(0, 0, 10), Vec::<usize>::new());
}

#[test]
fn count_rose_symbols_basic() {
    let mut s = make_solver(
        "\
+---+---+---+
| _ . _ . _ |
+ . + . + . +
| _ . _ . _ |
+---+---+---+
",
    );
    let cell0 = s.grid.cell_id(0, 0);
    let cell1 = s.grid.cell_id(1, 1);
    s.puzzle.cell_clues.push(CellClue::Rose { cell: cell0, symbol: 1 });
    s.puzzle.cell_clues.push(CellClue::Rose { cell: cell1, symbol: 1 });
    assert_eq!(s.count_rose_symbols(), 2);
}

#[test]
fn count_rose_symbols_none() {
    let s = make_solver(
        "\
+---+---+
| _ . _ |
+---+---+
",
    );
    assert_eq!(s.count_rose_symbols(), 0);
}

#[test]
fn compute_area_bounds_with_minimum() {
    let input = "\
+---+---+---+
| _ . _ . _ |
+ . + . + . +
| _ . _ . _ |
+---+---+---+
";
    let s = make_solver(input);
    let puzzle = Puzzle { rules: GlobalRules { minimum: Some(3), ..Default::default() }, ..Default::default() };
    let grid: Grid = s.grid.clone();
    let mut solver = Solver::new(puzzle, grid);
    solver.compute_area_bounds();
    assert_eq!(solver.eff_min_area, 3);
}

#[test]
fn compute_area_bounds_from_bank_and_rules() {
    let s = make_solver(
        "\
+---+---+---+
| _ . _ . _ |
+ . + . + . +
| _ . _ . _ |
+---+---+---+
",
    );
    let bank = vec![polyomino::get_named_shape("oo").unwrap(), polyomino::get_named_shape("T").unwrap()];
    let puzzle = Puzzle {
        rules: GlobalRules { shape_bank: bank, maximum: Some(5), ..Default::default() },
        ..Default::default()
    };
    let mut solver = Solver::new(puzzle, s.grid.clone());
    solver.compute_area_bounds();
    assert_eq!(solver.eff_min_area, 2);
    assert_eq!(solver.eff_max_area, 4);
}

#[test]
fn auto_populate_shape_bank_populates() {
    let input = "\
+---+---+---+
| _ . _ . _ |
+ . + . + . +
| _ . _ . _ |
+---+---+---+
";
    let s = make_solver(input);
    let puzzle = Puzzle {
        rules: GlobalRules { minimum: Some(2), maximum: Some(2), ..Default::default() },
        ..Default::default()
    };
    let grid = s.grid.clone();
    let mut solver = Solver::new(puzzle, grid);
    solver.compute_area_bounds();
    assert_eq!(solver.eff_max_area, 2);
    assert!(solver.puzzle.rules.shape_bank.is_empty());
    solver.auto_populate_shape_bank();
    assert!(!solver.puzzle.rules.shape_bank.is_empty());
    for shape in &solver.puzzle.rules.shape_bank {
        assert_eq!(shape.cells.len(), 2);
    }
}

#[test]
fn auto_populate_non_boxy_filters_rectangles() {
    let input = "\
+---+---+---+---+
| _ . _ . _ . _ |
+ . + . + . + . +
| _ . _ . _ . _ |
+---+---+---+---+
";
    let s = make_solver(input);
    let puzzle = Puzzle {
        rules: GlobalRules { minimum: Some(3), maximum: Some(4), non_boxy: true, ..Default::default() },
        ..Default::default()
    };
    let grid = s.grid.clone();
    let mut solver = Solver::new(puzzle, grid);
    solver.compute_area_bounds();
    solver.auto_populate_shape_bank();
    assert!(!solver.puzzle.rules.shape_bank.is_empty());
    for shape in &solver.puzzle.rules.shape_bank {
        assert!(
            !polyomino::is_rectangular_shape(shape),
            "non-boxy bank should not contain rectangular shapes, got area={}",
            shape.cells.len()
        );
    }
    let sizes: std::collections::HashSet<usize> =
        solver.puzzle.rules.shape_bank.iter().map(|s| s.cells.len()).collect();
    assert!(sizes.contains(&3));
    assert!(sizes.contains(&4));
    assert!(!sizes.contains(&2));
}

#[test]
fn auto_populate_boxy_only_rectangles() {
    let input = "\
+---+---+---+---+---+
| _ . _ . _ . _ . _ |
+ . + . + . + . + . +
| _ . _ . _ . _ . _ |
+ . + . + . + . + . +
| _ . _ . _ . _ . _ |
+---+---+---+---+---+
";
    let s = make_solver(input);
    let puzzle = Puzzle {
        rules: GlobalRules { minimum: Some(1), maximum: Some(10), boxy: true, ..Default::default() },
        ..Default::default()
    };
    let total = s.grid.total_existing_cells();
    let grid = s.grid.clone();
    let mut solver = Solver::new(puzzle, grid);
    solver.total_cells = total;
    solver.compute_area_bounds();
    solver.auto_populate_shape_bank();
    assert!(!solver.puzzle.rules.shape_bank.is_empty());
    for shape in &solver.puzzle.rules.shape_bank {
        assert!(
            polyomino::is_rectangular_shape(shape),
            "boxy bank should only contain rectangular shapes, got area={}",
            shape.cells.len()
        );
    }
    let sizes: std::collections::HashSet<usize> =
        solver.puzzle.rules.shape_bank.iter().map(|s| s.cells.len()).collect();
    assert!(sizes.contains(&1));
    assert!(sizes.contains(&2));
    assert!(sizes.contains(&4));
    assert!(sizes.contains(&6));
    assert!(sizes.contains(&10));
    assert!(solver.puzzle.rules.shape_bank.len() <= 17);
}

#[test]
fn auto_populate_keeps_a_given_bank() {
    let s = make_solver(
        "\
+---+---+
| _ . _ |
+---+---+
",
    );
    let puzzle = Puzzle {
        rules: GlobalRules { shape_bank: vec![polyomino::get_named_shape("oo").unwrap()], ..Default::default() },
        ..Default::default()
    };
    let mut solver = Solver::new(puzzle, s.grid.clone());
    solver.compute_area_bounds();
    solver.auto_populate_shape_bank();
    assert_eq!(solver.puzzle.rules.shape_bank.len(), 1);
}

fn compass(n: Option<usize>, s: Option<usize>, e: Option<usize>, w: Option<usize>) -> aog::types::CompassData {
    aog::types::CompassData { e, w, s, n }
}

const GRID_3X3_OPEN: &str = "\
+---+---+---+
| _ . _ . _ |
+ . + . + . +
| _ . _ . _ |
+ . + . + . +
| _ . _ . _ |
+---+---+---+
";

#[test]
fn compass_bounds_centre_one_direction() {
    let s = make_solver(GRID_3X3_OPEN);
    let c = s.grid.cell_id(1, 1);
    assert_eq!(s.get_compass_area_bounds(c, &compass(Some(1), None, None, None)), (2, None, None));
}

#[test]
fn compass_bounds_corner_infers_zero_outside() {
    let s = make_solver(GRID_3X3_OPEN);
    let c = s.grid.cell_id(0, 0);
    // nothing lies north or west of the corner: those count 0
    assert_eq!(s.get_compass_area_bounds(c, &compass(None, None, Some(2), None)), (3, None, None));
    assert_eq!(s.get_compass_area_bounds(c, &compass(None, Some(1), Some(2), None)), (3, Some(4), None));
    assert_eq!(s.get_compass_area_bounds(c, &compass(None, Some(2), Some(0), None)), (3, Some(3), Some(3)));
}

#[test]
fn compass_bounds_all_known() {
    let s = make_solver(GRID_3X3_OPEN);
    let c = s.grid.cell_id(1, 1);
    assert_eq!(s.get_compass_area_bounds(c, &compass(Some(1), Some(1), Some(0), Some(0))), (3, Some(3), Some(3)));
    assert_eq!(s.get_compass_area_bounds(c, &compass(Some(0), Some(0), Some(1), Some(1))), (3, Some(3), Some(3)));
    assert_eq!(s.get_compass_area_bounds(c, &compass(Some(1), Some(0), Some(1), Some(1))), (3, Some(4), None));
}
