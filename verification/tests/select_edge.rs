use aog::parser::Parser;
use aog::solver::Solver;
use aog::types::EdgeState;

fn solver_2x2() -> Solver {
    let mut p = Parser::new();
    p.parse(
        "\
+---+---+
| _ . _ |
+ . + . +
| _ . _ |
+---+---+
"
        .as_bytes(),
    )
    .unwrap();
    Solver::new(p.puzzle, p.grid)
}

/// Fills the component tables by hand: every cell its own component.
fn singleton_components(s: &mut Solver) {
    let n = s.grid.num_cells();
    s.curr_comp_id = (0..n).collect();
    s.curr_comp_sz = vec![1; n];
    s.curr_target_area = vec![None; n];
    s.curr_min_area = vec![1; n];
    s.curr_max_area = vec![n; n];
    s.growth_edges = vec![Vec::new(); n];
    s.comp_cells = (0..n).map(|c| vec![c]).collect();
    s.can_grow_buf = vec![true; n];
}

#[test]
fn select_edge_without_components_takes_the_first_undecided_edge() {
    let mut s = solver_2x2();
    assert_eq!(s.select_edge(), Some((0, 0)));
    s.edges[0] = EdgeState::Cut;
    assert_eq!(s.select_edge(), Some((1, 0)));
}

#[test]
fn select_edge_is_none_when_every_edge_is_decided() {
    let mut s = solver_2x2();
    for e in 0..s.grid.num_edges() {
        s.edges[e] = EdgeState::Uncut;
    }
    assert_eq!(s.select_edge(), None);
    singleton_components(&mut s);
    assert_eq!(s.select_edge(), None);
}

#[test]
fn select_edge_prefers_an_edge_of_a_component_below_its_target() {
    let mut s = solver_2x2();
    singleton_components(&mut s);
    // With nothing known every edge scores 10 + 10; the first one wins.
    assert_eq!(s.select_edge(), Some((0, 20)));
    // A target area of 3 on the bottom-right cell lifts its two edges.
    let c = s.grid.cell_id(1, 1);
    s.curr_target_area[c] = Some(3);
    let first = s.grid.h_edge(0, 1).min(s.grid.v_edge(1, 0));
    assert_eq!(s.select_edge(), Some((first, 110)));
}

fn solver_of(text: &str) -> Solver {
    let mut p = Parser::new();
    p.parse(text.as_bytes()).unwrap();
    let mut s = Solver::new(p.puzzle, p.grid);
    for e in p.pre_cut_edges {
        s.mark_pre_cut(e);
    }
    s
}

#[test]
fn build_components_numbers_cells_joined_by_uncut_edges() {
    let mut s = solver_2x2();
    assert_eq!(s.build_components(), Ok(4));
    assert_eq!(s.curr_comp_id, vec![0, 1, 2, 3]);
    assert_eq!(s.curr_comp_sz, vec![1, 1, 1, 1]);
    let e = s.grid.v_edge(0, 0);
    s.edges[e] = EdgeState::Uncut;
    assert_eq!(s.build_components(), Ok(3));
    assert_eq!(s.curr_comp_id, vec![0, 0, 1, 2]);
    assert_eq!(s.curr_comp_sz, vec![2, 1, 1]);
    assert_eq!(s.comp_cells, vec![vec![0, 1], vec![2], vec![3]]);
    assert_eq!(s.can_grow_buf, vec![true, true, true]);
}

#[test]
fn build_components_cuts_between_different_target_areas() {
    let mut s = solver_of("+---+---+\n| 2 . 3 |\n+---+---+\n");
    assert_eq!(s.build_components(), Ok(2));
    assert_eq!(s.curr_target_area, vec![Some(2), Some(3)]);
    assert_eq!(s.edges[s.grid.v_edge(0, 0)], EdgeState::Cut);
}

#[test]
fn build_components_fails_on_two_areas_in_one_component() {
    let mut s = solver_of("+---+---+\n| 2 . 3 |\n+---+---+\n");
    let e = s.grid.v_edge(0, 0);
    s.edges[e] = EdgeState::Uncut;
    assert_eq!(s.build_components(), Err(()));
}

const ROW_1X3: &str = "+---+---+---+\n| _ . _ . _ |\n+---+---+---+\n";

fn delta_between_first_two(s: &mut Solver) {
    let e = s.grid.v_edge(0, 0);
    s.puzzle.edge_clues.push(aog::types::EdgeClue { edge: e, kind: aog::types::EdgeClueKind::Delta });
    s.edges[e] = EdgeState::Cut;
}

#[test]
fn shape_constraints_fail_on_equal_shapes_across_a_delta_clue() {
    let mut s = solver_of(ROW_1X3);
    delta_between_first_two(&mut s);
    s.edges[s.grid.v_edge(0, 1)] = EdgeState::Cut;
    assert_eq!(s.build_components(), Ok(3));
    assert_eq!(s.propagate_shape_constraints(3), Err(()));
}

#[test]
fn shape_constraints_accept_different_shapes_across_a_delta_clue() {
    let mut s = solver_of(ROW_1X3);
    delta_between_first_two(&mut s);
    s.edges[s.grid.v_edge(0, 1)] = EdgeState::Uncut;
    assert_eq!(s.build_components(), Ok(2));
    assert_eq!(s.propagate_shape_constraints(2), Ok(()));
}

#[test]
fn shape_constraints_fail_on_two_equal_pieces_under_mismatch() {
    let mut s = solver_of("+---+---+\n| _ . _ |\n+---+---+\n");
    s.puzzle.rules.mismatch = true;
    s.edges[s.grid.v_edge(0, 0)] = EdgeState::Cut;
    assert_eq!(s.build_components(), Ok(2));
    assert_eq!(s.propagate_shape_constraints(2), Err(()));
}

#[test]
fn size_separation_makes_a_component_of_a_forbidden_size_grow() {
    let mut s = solver_of(ROW_1X3);
    s.puzzle.rules.size_separation = true;
    s.edges[s.grid.v_edge(0, 0)] = EdgeState::Cut;
    assert_eq!(s.build_components(), Ok(3));
    assert_eq!(s.propagate_size_separation(3), Ok(true));
    assert_eq!(s.edges[s.grid.v_edge(0, 1)], EdgeState::Uncut);
    assert_eq!(s.sealed_neighbor_sizes, Some(vec![vec![], vec![1], vec![]]));
}

#[test]
fn size_separation_fails_on_equal_sealed_neighbours() {
    let mut s = solver_of("+---+---+\n| _ . _ |\n+---+---+\n");
    s.puzzle.rules.size_separation = true;
    s.edges[s.grid.v_edge(0, 0)] = EdgeState::Cut;
    assert_eq!(s.build_components(), Ok(2));
    assert_eq!(s.propagate_size_separation(2), Err(()));
}

#[test]
fn size_separation_is_off_without_the_rule() {
    let mut s = solver_of(ROW_1X3);
    s.edges[s.grid.v_edge(0, 0)] = EdgeState::Cut;
    assert_eq!(s.build_components(), Ok(3));
    assert_eq!(s.propagate_size_separation(3), Ok(false));
    assert_eq!(s.sealed_neighbor_sizes, None);
}

#[test]
fn prefer_cut_first_tries_uncut_for_a_component_below_its_target() {
    let mut s = solver_2x2();
    let e = s.grid.v_edge(0, 0);
    assert!(s.prefer_cut_first(e));
    singleton_components(&mut s);
    assert!(s.prefer_cut_first(e));
    s.curr_target_area[0] = Some(2);
    assert!(!s.prefer_cut_first(e));
}

#[test]
fn sealed_and_growing_components() {
    let mut s = solver_2x2();
    singleton_components(&mut s);
    s.can_grow_buf[1] = false;
    s.can_grow_buf[3] = false;
    assert_eq!(s.sealed(4), vec![1, 3]);
    assert!(s.is_growing(0));
    assert!(!s.is_growing(1));
    assert!(!s.is_growing(7));
}
