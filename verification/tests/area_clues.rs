use aog::parser::Parser;
use aog::solver::Solver;
use aog::types::EdgeState;

fn make_solver(input: &str) -> Solver {
    let mut p = Parser::new();
    p.parse(input.as_bytes()).unwrap();
    let mut s = Solver::new(p.puzzle, p.grid);
    for e in p.pre_cut_edges {
        s.mark_pre_cut(e);
    }
    s
}

const ROW_4: &str = "\
+---+---+---+---+
| _ . _ . _ . _ |
+---+---+---+---+
";

/// Cells 0 | 1 . 2 ? 3 with a difference clue on the cut edge 0|1: the
/// sealed monomino {0} on one side, the growing {1, 2} on the other.
fn row_with_diff(value: usize) -> Solver {
    let mut s = make_solver(ROW_4);
    let e01 = s.grid.v_edge(0, 0);
    let e12 = s.grid.v_edge(0, 1);
    let e23 = s.grid.v_edge(0, 2);
    assert!(s.set_edge(e01, EdgeState::Cut));
    assert!(s.set_edge(e12, EdgeState::Uncut));
    s.diff_clues = vec![(e01, value)];
    s.curr_comp_id = vec![0, 1, 1, 2];
    s.curr_comp_sz = vec![1, 2, 1];
    s.can_grow_buf = vec![false, true, true];
    s.curr_min_area = vec![1, 1, 1];
    s.curr_max_area = vec![4, 4, 4];
    s.curr_target_area = vec![None, None, None];
    s.growth_edges = vec![vec![], vec![e23], vec![e23]];
    s
}

#[test]
fn diff_clue_single_candidate_reached_seals_the_component() {
    // 1 + 1 = 2 is the only candidate (1 - 1 = 0 is not larger than 0), and
    // the component already has 2 cells: its growth edge is cut.
    let mut s = row_with_diff(1);
    let e23 = s.grid.v_edge(0, 2);
    assert_eq!(s.propagate_diff_clues(), Ok(true));
    assert_eq!(s.curr_target_area[1], Some(2));
    assert_eq!(s.edges[e23], EdgeState::Cut);
}

#[test]
fn diff_clue_single_candidate_not_reached_sets_target_only() {
    // 1 + 2 = 3 is the only candidate; the component has 2 cells and keeps growing.
    let mut s = row_with_diff(2);
    let e23 = s.grid.v_edge(0, 2);
    assert_eq!(s.propagate_diff_clues(), Ok(false));
    assert_eq!(s.curr_target_area[1], Some(3));
    assert_eq!(s.edges[e23], EdgeState::Unknown);
}

#[test]
fn diff_clue_component_too_large_for_the_candidate() {
    // The only candidate is 1 + 1 = 2: smaller than a component of 3 cells.
    let mut s = row_with_diff(1);
    s.curr_comp_sz = vec![1, 3, 1];
    assert_eq!(s.propagate_diff_clues(), Err(()));
}

#[test]
fn diff_clue_no_candidate_in_range() {
    let mut s = row_with_diff(1);
    s.curr_max_area[1] = 1;
    assert_eq!(s.propagate_diff_clues(), Err(()));
}

#[test]
fn diff_clue_known_target_must_be_a_candidate() {
    let mut s = row_with_diff(1);
    s.curr_target_area[1] = Some(3);
    assert_eq!(s.propagate_diff_clues(), Err(()));
    let mut s = row_with_diff(1);
    s.curr_target_area[1] = Some(2);
    assert_eq!(s.propagate_diff_clues(), Ok(false));
    assert_eq!(s.curr_target_area[1], Some(2));
}

#[test]
fn diff_clue_both_sealed_sizes_checked() {
    let mut s = row_with_diff(1);
    s.can_grow_buf = vec![false, false, true];
    // Sizes 1 and 2 differ by 1.
    assert_eq!(s.propagate_diff_clues(), Ok(false));
    let mut s = row_with_diff(2);
    s.can_grow_buf = vec![false, false, true];
    assert_eq!(s.propagate_diff_clues(), Err(()));
}

#[test]
fn diff_clue_on_an_uncut_edge_is_ignored() {
    let mut s = row_with_diff(3);
    let e12 = s.grid.v_edge(0, 1);
    s.diff_clues = vec![(e12, 3)];
    assert_eq!(s.propagate_diff_clues(), Ok(false));
    assert_eq!(s.curr_target_area, vec![None, None, None]);
}

#[test]
fn diff_clue_two_candidates_decide_nothing() {
    // Sealed side of 3 cells, value 1: candidates 4 and 2.
    let mut s = row_with_diff(1);
    s.curr_comp_sz = vec![3, 2, 1];
    assert_eq!(s.propagate_diff_clues(), Ok(false));
    assert_eq!(s.curr_target_area[1], None);
}

#[test]
fn flood_fill_decided_basic() {
    let mut s = make_solver(
        "\
+---+---+---+
| _ . _ . _ |
+ . + . + . +
| _ . _ . _ |
+---+---+---+
",
    );
    // Make top-left and top-center connected via Uncut
    let v_edge = s.grid.v_edge(0, 0);
    let _ = s.set_edge(v_edge, EdgeState::Uncut);

    s.comp_buf.fill(usize::MAX);
    s.flood_fill_decided(s.grid.cell_id(0, 0));

    // Cell (0,0) and (0,1) should have same component id
    assert_eq!(
        s.comp_buf[s.grid.cell_id(0, 0)],
        s.comp_buf[s.grid.cell_id(0, 1)]
    );
    // Cell (1,0) should be in a different component
    assert_ne!(
        s.comp_buf[s.grid.cell_id(0, 0)],
        s.comp_buf[s.grid.cell_id(1, 0)]
    );
}

#[test]
fn flood_fill_stops_at_labelled_cells_and_undecided_edges() {
    // Row of four cells, all joined by uncut edges; cell 2 already has a label.
    let mut s = make_solver(ROW_4);
    for c in 0..3 {
        let e = s.grid.v_edge(0, c);
        assert!(s.set_edge(e, EdgeState::Uncut));
    }
    s.comp_buf = vec![usize::MAX, usize::MAX, 7, usize::MAX];
    s.flood_fill_decided(0);
    assert_eq!(s.comp_buf, vec![0, 0, 7, usize::MAX]);

    // An undecided edge is not crossed.
    let mut s = make_solver(ROW_4);
    let e = s.grid.v_edge(0, 0);
    assert!(s.set_edge(e, EdgeState::Uncut));
    s.flood_fill_decided(1);
    assert_eq!(s.comp_buf, vec![1, 1, usize::MAX, usize::MAX]);
}

/// Cells 0 . 1 | 2 ? 3 in one row: components {0, 1}, {2}, {3}.
fn row_components() -> Solver {
    let mut s = make_solver(ROW_4);
    let e01 = s.grid.v_edge(0, 0);
    let e12 = s.grid.v_edge(0, 1);
    let e23 = s.grid.v_edge(0, 2);
    assert!(s.set_edge(e01, EdgeState::Uncut));
    assert!(s.set_edge(e12, EdgeState::Cut));
    s.curr_comp_id = vec![0, 0, 1, 2];
    s.curr_comp_sz = vec![2, 1, 1];
    s.can_grow_buf = vec![false, true, true];
    s.curr_min_area = vec![1, 1, 1];
    s.curr_max_area = vec![4, 4, 4];
    s.curr_target_area = vec![None, None, None];
    s.growth_edges = vec![vec![], vec![e23], vec![e23]];
    s.comp_cells = vec![vec![0, 1], vec![2], vec![3]];
    s
}

#[test]
fn growth_potential_counts_cells_through_edges_not_cut() {
    let mut s = row_components();
    // {2} reaches 3 through the undecided edge, not 1 through the cut one.
    assert_eq!(s.growth_potential(1), 2);
    assert_eq!(s.growth_potential(0), 2);
    s.curr_max_area[1] = 1;
    assert_eq!(s.growth_potential(1), 1);
    s.curr_target_area[2] = Some(3);
    assert_eq!(s.growth_potential(2), 3);
}

#[test]
fn inequality_clue_both_sealed() {
    let mut s = row_components();
    let e12 = s.grid.v_edge(0, 1);
    s.can_grow_buf = vec![false, false, true];
    // {0, 1} must be smaller than {2}: 2 cells against 1.
    s.puzzle.edge_clues.push(aog::types::EdgeClue {
        edge: e12,
        kind: aog::types::EdgeClueKind::Inequality { smaller_first: true },
    });
    assert_eq!(s.propagate_inequality_clues(), Err(()));
    // The other way round holds.
    s.puzzle.edge_clues[0].kind = aog::types::EdgeClueKind::Inequality { smaller_first: false };
    assert_eq!(s.propagate_inequality_clues(), Ok(false));
}

#[test]
fn inequality_clue_sealed_small_against_growth_bound() {
    let mut s = row_components();
    let e12 = s.grid.v_edge(0, 1);
    // {0, 1} (sealed, 2 cells) smaller than {2}, which can reach only 2 cells.
    s.puzzle.edge_clues.push(aog::types::EdgeClue {
        edge: e12,
        kind: aog::types::EdgeClueKind::Inequality { smaller_first: true },
    });
    assert_eq!(s.propagate_inequality_clues(), Err(()));
    // A sealed monomino on the small side is fine.
    s.curr_comp_sz[0] = 1;
    assert_eq!(s.propagate_inequality_clues(), Ok(false));
}

#[test]
fn inequality_clue_growing_sides_use_targets() {
    let mut s = row_components();
    let e12 = s.grid.v_edge(0, 1);
    s.can_grow_buf = vec![true, true, true];
    s.curr_comp_sz[0] = 1;
    s.puzzle.edge_clues.push(aog::types::EdgeClue {
        edge: e12,
        kind: aog::types::EdgeClueKind::Inequality { smaller_first: true },
    });
    assert_eq!(s.propagate_inequality_clues(), Ok(false));
    // The larger side has a target no larger than the smaller side's size.
    s.curr_target_area[1] = Some(1);
    assert_eq!(s.propagate_inequality_clues(), Err(()));
    // The smaller side's target reaches the larger side's bound.
    let mut s2 = row_components();
    s2.can_grow_buf = vec![true, true, true];
    s2.curr_comp_sz[0] = 1;
    s2.puzzle.edge_clues = s.puzzle.edge_clues.clone();
    s2.curr_target_area[0] = Some(2);
    assert_eq!(s2.propagate_inequality_clues(), Err(()));
}
