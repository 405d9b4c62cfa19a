use aog::parser::Parser;
use aog::solver::Solver;
use aog::types::{CellClue, EdgeClue, EdgeClueKind, EdgeState, PalisadeKind, VertexClue};

fn make_solver(input: &str) -> Solver {
    let mut p = Parser::new();
    p.parse(input.as_bytes()).unwrap();
    let mut s = Solver::new(p.puzzle, p.grid);
    for e in p.pre_cut_edges {
        s.mark_pre_cut(e);
    }
    s
}

const GRID_2X2: &str = "\
+---+---+
| _ . _ |
+ . + . +
| _ . _ |
+---+---+
";

const GRID_3X3: &str = "\
+---+---+---+
| _ . _ . _ |
+ . + . + . +
| _ . _ . _ |
+ . + . + . +
| _ . _ . _ |
+---+---+---+
";

#[test]
fn set_edge_and_restore() {
    let mut s = make_solver(GRID_2X2);
    let e = s.grid.v_edge(0, 0);
    assert_eq!(s.edges[e], EdgeState::Unknown);
    assert!(s.set_edge(e, EdgeState::Cut));
    assert_eq!(s.edges[e], EdgeState::Cut);
    let snap = s.snapshot();
    let e2 = s.grid.h_edge(0, 0);
    let _ = s.set_edge(e2, EdgeState::Uncut);
    assert_eq!(s.edges[e2], EdgeState::Uncut);
    s.restore(snap);
    assert_eq!(s.edges[e], EdgeState::Cut);
    assert_eq!(s.edges[e2], EdgeState::Unknown);
}

#[test]
fn set_edge_idempotent() {
    let mut s = make_solver(GRID_2X2);
    let e = s.grid.v_edge(0, 0);
    s.edges[e] = EdgeState::Cut;
    let snap = s.snapshot();
    assert!(s.set_edge(e, EdgeState::Cut));
    assert_eq!(s.changed.len(), snap.edges);
}

#[test]
fn set_edge_conflict_returns_false() {
    let mut s = make_solver(GRID_2X2);
    let e = s.grid.v_edge(0, 0);
    s.edges[e] = EdgeState::Cut;
    assert!(!s.set_edge(e, EdgeState::Uncut));
}

#[test]
fn restore_undoes_many_decisions() {
    let mut s = make_solver(GRID_3X3);
    let before = s.edges.clone();
    let snap = s.snapshot();
    for e in 0..s.edges.len() {
        let st = if e % 2 == 0 { EdgeState::Cut } else { EdgeState::Uncut };
        assert!(s.set_edge(e, st));
    }
    assert!(s.edges.iter().all(|&x| x != EdgeState::Unknown));
    s.restore(snap);
    assert_eq!(s.edges, before);
    assert_eq!(s.changed.len(), snap.edges);
}

#[test]
fn mark_pre_cut_cuts_undecided_edges() {
    let mut s = make_solver(GRID_2X2);
    let e = s.grid.h_edge(0, 1);
    s.mark_pre_cut(e);
    assert!(s.is_pre_cut[e]);
    assert_eq!(s.edges[e], EdgeState::Cut);
    let e2 = s.grid.v_edge(1, 0);
    assert!(s.set_edge(e2, EdgeState::Uncut));
    s.mark_pre_cut(e2);
    assert!(s.is_pre_cut[e2]);
    assert_eq!(s.edges[e2], EdgeState::Uncut);
}

#[test]
fn apply_forced_edges_reports_progress() {
    let mut s = make_solver(GRID_2X2);
    let a = s.grid.h_edge(0, 0);
    let b = s.grid.v_edge(0, 0);
    assert_eq!(s.apply_forced_edges(&[(a, EdgeState::Cut), (b, EdgeState::Uncut)]), Ok(true));
    assert_eq!(s.edges[a], EdgeState::Cut);
    assert_eq!(s.edges[b], EdgeState::Uncut);
    assert_eq!(s.apply_forced_edges(&[(a, EdgeState::Uncut)]), Ok(false));
    assert_eq!(s.edges[a], EdgeState::Cut);
}

#[test]
fn new_solver_tables() {
    let mut p = Parser::new();
    p.parse(
        "\
+---+---+
| A . B |
+ . + . +
| A . p0|
+---+---+
"
        .as_bytes(),
    )
    .unwrap();
    let s = Solver::new(p.puzzle, p.grid);
    assert_eq!(s.rose_bits_all, 0b11);
    assert_eq!(s.rose_exact_piece_count, None);
    assert_eq!(s.cell_rose_sym[0], 0);
    assert_eq!(s.cell_rose_sym[1], 1);
    assert_eq!(s.cell_rose_sym[3], u8::MAX);
    assert!(s.has_palisade_clue);
    assert!(!s.has_compass_clue);
    assert_eq!(s.cell_clues_indexed[2], vec![2]);
    assert!(s.has_any_clue[0] && !s.has_any_clue.is_empty());
    assert_eq!(s.curr_unknown, s.edges.len());
}

fn make_watchtower_solver(input: &str, vi: usize, vj: usize, value: usize) -> Solver {
    let mut s = make_solver(input);
    s.puzzle.vertex_clues.push(VertexClue { vertex: s.grid.vertex(vi, vj), value });
    s
}

#[test]
fn watchtower_boundary_2cells_value1_forces_uncut() {
    let mut s = make_watchtower_solver(
        "\
+---+---+
| _ . _ |
| _ . _ |
+---+---+
",
        0,
        1,
        1,
    );
    let v_edge = s.grid.v_edge(0, 0);
    assert_eq!(s.edges[v_edge], EdgeState::Unknown);
    let result = s.propagate_watchtower();
    assert!(result.is_ok());
    assert!(result.unwrap(), "should have made progress");
    assert_eq!(s.edges[v_edge], EdgeState::Uncut);
}

#[test]
fn watchtower_boundary_2cells_value2_forces_cut() {
    let mut s = make_watchtower_solver(
        "\
+---+---+
| _ . _ |
+---+---+
",
        0,
        1,
        2,
    );
    let v_edge = s.grid.v_edge(0, 0);
    let result = s.propagate_watchtower();
    assert!(result.is_ok());
    assert!(result.unwrap());
    assert_eq!(s.edges[v_edge], EdgeState::Cut);
}

#[test]
fn watchtower_boundary_2cells_value2_already_cut_ok() {
    let mut s = make_watchtower_solver(
        "\
+---+---+
| _ . _ |
+---+---+
",
        0,
        1,
        2,
    );
    let v_edge = s.grid.v_edge(0, 0);
    let _ = s.set_edge(v_edge, EdgeState::Cut);
    let result = s.propagate_watchtower();
    assert!(result.is_ok());
    assert!(!result.unwrap(), "no progress needed");
}

#[test]
fn watchtower_boundary_2cells_value1_already_uncut_ok() {
    let mut s = make_watchtower_solver(
        "\
+---+---+
| _ . _ |
+---+---+
",
        0,
        1,
        1,
    );
    let v_edge = s.grid.v_edge(0, 0);
    let _ = s.set_edge(v_edge, EdgeState::Uncut);
    let result = s.propagate_watchtower();
    assert!(result.is_ok());
}

#[test]
fn watchtower_boundary_2cells_value1_already_cut_err() {
    let mut s = make_watchtower_solver(
        "\
+---+---+
| _ . _ |
+---+---+
",
        0,
        1,
        1,
    );
    let v_edge = s.grid.v_edge(0, 0);
    let _ = s.set_edge(v_edge, EdgeState::Cut);
    let result = s.propagate_watchtower();
    assert!(result.is_err(), "Cut edge with value=1 should be contradiction");
}

#[test]
fn watchtower_boundary_2cells_value3_err() {
    let mut s = make_watchtower_solver(
        "\
+---+---+
| _ . _ |
+---+---+
",
        0,
        1,
        3,
    );
    let result = s.propagate_watchtower();
    assert!(result.is_err(), "value > n_cells should be contradiction");
}

#[test]
fn watchtower_interior_4cells_value1_one_cut_forces_rest_uncut() {
    let mut s = make_watchtower_solver(GRID_2X2, 1, 1, 1);
    let _ = s.set_edge(s.grid.v_edge(0, 0), EdgeState::Cut);
    let result = s.propagate_watchtower();
    assert!(result.is_ok());
    assert!(result.unwrap());
    assert_eq!(s.edges[s.grid.h_edge(0, 0)], EdgeState::Uncut);
    assert_eq!(s.edges[s.grid.h_edge(0, 1)], EdgeState::Uncut);
    assert_eq!(s.edges[s.grid.v_edge(1, 0)], EdgeState::Uncut);
}

#[test]
fn watchtower_interior_4cells_value2_two_cuts_forces_rest_uncut() {
    let mut s = make_watchtower_solver(GRID_2X2, 1, 1, 2);
    let _ = s.set_edge(s.grid.v_edge(0, 0), EdgeState::Cut);
    let _ = s.set_edge(s.grid.h_edge(0, 0), EdgeState::Cut);
    let result = s.propagate_watchtower();
    assert!(result.is_ok());
    assert!(result.unwrap());
    assert_eq!(s.edges[s.grid.h_edge(0, 1)], EdgeState::Uncut);
    assert_eq!(s.edges[s.grid.v_edge(1, 0)], EdgeState::Uncut);
}

#[test]
fn watchtower_interior_4cells_value1_three_cuts_err() {
    let mut s = make_watchtower_solver(GRID_2X2, 1, 1, 1);
    let _ = s.set_edge(s.grid.v_edge(0, 0), EdgeState::Cut);
    let _ = s.set_edge(s.grid.h_edge(0, 0), EdgeState::Cut);
    let _ = s.set_edge(s.grid.h_edge(0, 1), EdgeState::Cut);
    let result = s.propagate_watchtower();
    assert!(result.is_err());
}

#[test]
fn watchtower_interior_4cells_value3_need_all_unknowns_cut() {
    let mut s = make_watchtower_solver(GRID_2X2, 1, 1, 3);
    let _ = s.set_edge(s.grid.v_edge(0, 0), EdgeState::Cut);
    let _ = s.set_edge(s.grid.h_edge(0, 0), EdgeState::Uncut);
    let result = s.propagate_watchtower();
    assert!(result.is_ok());
    assert!(result.unwrap());
    assert_eq!(s.edges[s.grid.h_edge(0, 1)], EdgeState::Cut);
    assert_eq!(s.edges[s.grid.v_edge(1, 0)], EdgeState::Cut);
}

#[test]
fn watchtower_corner_1cell_value1_no_propagation() {
    let mut s = make_watchtower_solver(
        "\
+---+
| _ |
+---+
",
        0,
        0,
        1,
    );
    let result = s.propagate_watchtower();
    assert!(result.is_ok());
    assert!(!result.unwrap(), "no progress for 1-cell vertex");
}

#[test]
fn watchtower_corner_1cell_value2_err() {
    let mut s = make_watchtower_solver(
        "\
+---+
| _ |
+---+
",
        0,
        0,
        2,
    );
    let result = s.propagate_watchtower();
    assert!(result.is_err());
}

#[test]
fn vertex_parity_forces_last_edge() {
    let mut s = make_watchtower_solver(GRID_2X2, 1, 1, 2);
    let _ = s.set_edge(s.grid.v_edge(0, 0), EdgeState::Cut);
    let _ = s.set_edge(s.grid.h_edge(0, 0), EdgeState::Uncut);
    let _ = s.set_edge(s.grid.h_edge(0, 1), EdgeState::Uncut);
    let result = s.propagate_vertex_edge_parity();
    assert_eq!(result, Ok(true));
    assert_eq!(s.edges[s.grid.v_edge(1, 0)], EdgeState::Cut);
}

#[test]
fn vertex_parity_conflict_is_an_error() {
    let mut s = make_watchtower_solver(GRID_2X2, 1, 1, 2);
    let _ = s.set_edge(s.grid.v_edge(0, 0), EdgeState::Cut);
    let _ = s.set_edge(s.grid.h_edge(0, 0), EdgeState::Uncut);
    let _ = s.set_edge(s.grid.h_edge(0, 1), EdgeState::Uncut);
    let _ = s.set_edge(s.grid.v_edge(1, 0), EdgeState::Uncut);
    assert!(s.propagate_vertex_edge_parity().is_err());
}

#[test]
fn propagate_palisade_none_forces_all_uncut() {
    let mut s = make_solver(GRID_3X3);
    let center = s.grid.cell_id(1, 1);
    s.puzzle.cell_clues.push(CellClue::Palisade { cell: center, kind: PalisadeKind::Zero });
    s.propagate_palisade();
    for eid in s.grid.cell_edges(center).into_array().into_iter().flatten() {
        assert_eq!(s.edges[eid], EdgeState::Uncut, "palisade p0: edge {eid} should be Uncut");
    }
}

#[test]
fn propagate_palisade_all_forces_all_cut() {
    let mut s = make_solver(GRID_3X3);
    let center = s.grid.cell_id(1, 1);
    s.puzzle.cell_clues.push(CellClue::Palisade { cell: center, kind: PalisadeKind::All });
    s.propagate_palisade();
    for eid in s.grid.cell_edges(center).into_array().into_iter().flatten() {
        assert_eq!(s.edges[eid], EdgeState::Cut, "palisade p4: edge {eid} should be Cut");
    }
}

#[test]
fn palisade_constraints_force_the_last_side() {
    let mut s = make_solver(GRID_3X3);
    let center = s.grid.cell_id(1, 1);
    s.puzzle.cell_clues.push(CellClue::Palisade { cell: center, kind: PalisadeKind::Three });
    let ce = s.grid.cell_edges(center);
    let _ = s.set_edge(ce.north.unwrap(), EdgeState::Cut);
    let _ = s.set_edge(ce.south.unwrap(), EdgeState::Cut);
    let _ = s.set_edge(ce.west.unwrap(), EdgeState::Uncut);
    assert_eq!(s.propagate_palisade_constraints(), Ok(true));
    assert_eq!(s.edges[ce.east.unwrap()], EdgeState::Cut);
}

#[test]
fn palisade_constraints_detect_conflict() {
    let mut s = make_solver(GRID_3X3);
    let center = s.grid.cell_id(1, 1);
    s.puzzle.cell_clues.push(CellClue::Palisade { cell: center, kind: PalisadeKind::One });
    let ce = s.grid.cell_edges(center);
    let _ = s.set_edge(ce.north.unwrap(), EdgeState::Cut);
    let _ = s.set_edge(ce.south.unwrap(), EdgeState::Cut);
    let before = s.edges.clone();
    assert!(s.propagate_palisade_constraints().is_err());
    assert_eq!(s.edges, before);
}

#[test]
fn propagate_bricky_rejects_4_cut() {
    let mut s = make_solver(GRID_3X3);
    s.puzzle.rules.bricky = true;
    for eid in s.grid.vertex_edges(1, 1).into_array().into_iter().flatten() {
        let _ = s.set_edge(eid, EdgeState::Cut);
    }
    let result = s.propagate_bricky_loopy();
    assert!(result.is_err(), "bricky: 4 cut edges at vertex should be contradiction");
}

#[test]
fn prop_area_propagate_bricky_rejects_4_cut() {
    let mut s = make_solver(GRID_3X3);
    s.puzzle.rules.bricky = true;
    for eid in s.grid.vertex_edges(1, 1).into_array().into_iter().flatten() {
        let _ = s.set_edge(eid, EdgeState::Cut);
    }
    let result = s.propagate_bricky_loopy();
    assert!(result.is_err(), "bricky: 4 cut edges at vertex should be contradiction");
}

#[test]
fn propagate_loopy_allows_4_cut() {
    let mut s = make_solver(GRID_3X3);
    s.puzzle.rules.loopy = true;
    for eid in s.grid.vertex_edges(1, 1).into_array().into_iter().flatten() {
        let _ = s.set_edge(eid, EdgeState::Cut);
    }
    let result = s.propagate_bricky_loopy();
    assert!(result.is_ok(), "loopy: 4 cut edges at vertex should be allowed");
    assert!(!result.unwrap(), "no progress expected (already decided)");
}

#[test]
fn propagate_loopy_forces_cut_when_3_known_and_1_unknown() {
    let mut s = make_solver(GRID_3X3);
    s.puzzle.rules.loopy = true;
    let edges: Vec<_> = s.grid.vertex_edges(1, 1).into_array().into_iter().flatten().collect();
    let _ = s.set_edge(edges[0], EdgeState::Cut);
    let _ = s.set_edge(edges[1], EdgeState::Cut);
    let _ = s.set_edge(edges[2], EdgeState::Cut);
    let result = s.propagate_bricky_loopy();
    assert!(result.is_ok(), "loopy: 3 Cut + 1 Unknown should force Cut, not error");
    assert!(result.unwrap(), "loopy: should have made progress (forced the 4th edge to Cut)");
    assert_eq!(s.edges[edges[3]], EdgeState::Cut, "loopy: 4th edge should be forced to Cut to make cross junction");
}

#[test]
fn propagate_loopy_rejects_3_cut_confirmed() {
    let mut s = make_solver(GRID_3X3);
    s.puzzle.rules.loopy = true;
    let edges: Vec<_> = s.grid.vertex_edges(1, 1).into_array().into_iter().flatten().collect();
    let _ = s.set_edge(edges[0], EdgeState::Cut);
    let _ = s.set_edge(edges[1], EdgeState::Cut);
    let _ = s.set_edge(edges[2], EdgeState::Cut);
    let _ = s.set_edge(edges[3], EdgeState::Uncut);
    let result = s.propagate_bricky_loopy();
    assert!(result.is_err(), "loopy: exactly 3 Cut + 1 Uncut (T-junction confirmed) should be contradiction");
}

#[test]
fn bricky_uncuts_the_fourth_edge() {
    let mut s = make_solver(GRID_3X3);
    s.puzzle.rules.bricky = true;
    let edges: Vec<_> = s.grid.vertex_edges(1, 1).into_array().into_iter().flatten().collect();
    let _ = s.set_edge(edges[0], EdgeState::Cut);
    let _ = s.set_edge(edges[1], EdgeState::Cut);
    let _ = s.set_edge(edges[2], EdgeState::Cut);
    assert_eq!(s.propagate_bricky_loopy(), Ok(true));
    assert_eq!(s.edges[edges[3]], EdgeState::Uncut);
}

fn blank_grid(n: usize) -> String {
    let mut s = String::new();
    s.push('+');
    for _ in 0..n {
        s.push_str("---+");
    }
    s.push('\n');
    for r in 0..n {
        s.push('|');
        for c in 0..n {
            s.push_str(" _ ");
            s.push(if c + 1 < n { '.' } else { '|' });
        }
        s.push('\n');
        s.push('+');
        for _ in 0..n {
            s.push_str(if r + 1 < n { " . +" } else { "---+" });
        }
        s.push('\n');
    }
    s
}

fn cut_around(s: &mut Solver, r: usize, c: usize) {
    let cell = s.grid.cell_id(r, c);
    for e in s.grid.cell_edges(cell).into_array().into_iter().flatten() {
        assert!(s.set_edge(e, EdgeState::Cut));
    }
}

#[test]
fn loop_closure_needs_a_piece_count() {
    let mut s = make_solver(&blank_grid(3));
    cut_around(&mut s, 1, 1);
    let before = s.edges.clone();
    assert_eq!(s.propagate_loop_closure(), Ok(false));
    assert_eq!(s.edges, before);
}

#[test]
fn loop_closure_too_many_loops() {
    let mut s = make_solver(&blank_grid(5));
    s.rose_exact_piece_count = Some(2);
    cut_around(&mut s, 1, 1);
    cut_around(&mut s, 3, 3);
    assert!(s.propagate_loop_closure().is_err());
    // three pieces allow two loops
    s.rose_exact_piece_count = Some(3);
    let before = s.edges.clone();
    assert_eq!(s.propagate_loop_closure(), Ok(false));
    assert_eq!(s.edges, before);
}

#[test]
fn loop_closure_two_pieces_loopy_uncuts_the_border() {
    let mut s = make_solver(&blank_grid(3));
    s.rose_exact_piece_count = Some(2);
    s.puzzle.rules.loopy = true;
    cut_around(&mut s, 1, 1);
    assert_eq!(s.propagate_loop_closure(), Ok(true));
    // the vertical edge between the two top-left cells touches the top border
    let e = s.grid.v_edge(0, 0);
    assert_eq!(s.edges[e], EdgeState::Uncut);
    let e = s.grid.h_edge(0, 2);
    assert_eq!(s.edges[e], EdgeState::Uncut);
    // the loop itself stays cut
    let e = s.grid.v_edge(1, 0);
    assert_eq!(s.edges[e], EdgeState::Cut);
    // nothing more to do
    assert_eq!(s.propagate_loop_closure(), Ok(false));
}

#[test]
fn loop_closure_cut_border_edge_is_a_contradiction() {
    let mut s = make_solver(&blank_grid(3));
    s.rose_exact_piece_count = Some(2);
    s.puzzle.rules.loopy = true;
    let e = s.grid.v_edge(0, 0);
    assert!(s.set_edge(e, EdgeState::Cut));
    assert!(s.propagate_loop_closure().is_err());
}

#[test]
fn loop_closure_no_cut_edges_does_nothing() {
    let mut s = make_solver(&blank_grid(3));
    s.rose_exact_piece_count = Some(2);
    s.puzzle.rules.loopy = true;
    assert_eq!(s.propagate_loop_closure(), Ok(false));
    assert!(s.edges.iter().all(|&x| x == EdgeState::Unknown));
}

#[test]
fn propagate_delta_gemini_h_pair_forces_cut() {
    // Gemini west and delta east of the point (1,1): its north and south
    // edges cannot both be uncut.
    let mut s = make_solver(GRID_3X3);
    let h_west = s.grid.h_edge(0, 0);
    let h_east = s.grid.h_edge(0, 1);
    s.puzzle.edge_clues.push(EdgeClue {
        edge: h_west,
        kind: EdgeClueKind::Gemini,
    });
    s.puzzle.edge_clues.push(EdgeClue {
        edge: h_east,
        kind: EdgeClueKind::Delta,
    });
    s.edges[h_west] = EdgeState::Cut;
    s.edges[h_east] = EdgeState::Cut;

    let v_north = s.grid.v_edge(0, 0);
    let v_south = s.grid.v_edge(1, 0);
    let _ = s.set_edge(v_north, EdgeState::Uncut);

    let result = s.propagate_delta_gemini_interaction();
    assert!(result.is_ok());
    assert!(result.unwrap());
    assert_eq!(s.edges[v_south], EdgeState::Cut);
}

#[test]
fn propagate_delta_gemini_h_pair_bricky_forces_uncut() {
    // Under the bricky rule the two edges across cannot both be cut either.
    let mut s = make_solver(GRID_3X3);
    s.puzzle.rules.bricky = true;
    let h_west = s.grid.h_edge(0, 0);
    let h_east = s.grid.h_edge(0, 1);
    s.puzzle.edge_clues.push(EdgeClue {
        edge: h_west,
        kind: EdgeClueKind::Gemini,
    });
    s.puzzle.edge_clues.push(EdgeClue {
        edge: h_east,
        kind: EdgeClueKind::Delta,
    });
    s.edges[h_west] = EdgeState::Cut;
    s.edges[h_east] = EdgeState::Cut;

    let v_north = s.grid.v_edge(0, 0);
    let v_south = s.grid.v_edge(1, 0);
    let _ = s.set_edge(v_north, EdgeState::Cut);

    let result = s.propagate_delta_gemini_interaction();
    assert!(result.is_ok());
    assert!(result.unwrap());
    assert_eq!(s.edges[v_south], EdgeState::Uncut);
}

#[test]
fn propagate_delta_gemini_v_pair_forces_cut() {
    // Gemini north and delta south of the point (1,1): its west and east
    // edges cannot both be uncut.
    let mut s = make_solver(GRID_3X3);
    let v_north = s.grid.v_edge(0, 0);
    let v_south = s.grid.v_edge(1, 0);
    s.puzzle.edge_clues.push(EdgeClue {
        edge: v_north,
        kind: EdgeClueKind::Gemini,
    });
    s.puzzle.edge_clues.push(EdgeClue {
        edge: v_south,
        kind: EdgeClueKind::Delta,
    });
    s.edges[v_north] = EdgeState::Cut;
    s.edges[v_south] = EdgeState::Cut;

    let h_west = s.grid.h_edge(0, 0);
    let h_east = s.grid.h_edge(0, 1);
    let _ = s.set_edge(h_west, EdgeState::Uncut);

    let result = s.propagate_delta_gemini_interaction();
    assert!(result.is_ok());
    assert!(result.unwrap());
    assert_eq!(s.edges[h_east], EdgeState::Cut);
}

#[test]
fn delta_gemini_both_across_uncut_is_a_contradiction() {
    let mut s = make_solver(GRID_3X3);
    let h_west = s.grid.h_edge(0, 0);
    let h_east = s.grid.h_edge(0, 1);
    s.puzzle.edge_clues.push(EdgeClue {
        edge: h_west,
        kind: EdgeClueKind::Delta,
    });
    s.puzzle.edge_clues.push(EdgeClue {
        edge: h_east,
        kind: EdgeClueKind::Gemini,
    });
    let _ = s.set_edge(s.grid.v_edge(0, 0), EdgeState::Uncut);
    let _ = s.set_edge(s.grid.v_edge(1, 0), EdgeState::Uncut);
    assert!(s.propagate_delta_gemini_interaction().is_err());
}

#[test]
fn delta_gemini_same_kind_line_does_nothing() {
    // Two gemini clues in a line force nothing.
    let mut s = make_solver(GRID_3X3);
    let h_west = s.grid.h_edge(0, 0);
    let h_east = s.grid.h_edge(0, 1);
    s.puzzle.edge_clues.push(EdgeClue {
        edge: h_west,
        kind: EdgeClueKind::Gemini,
    });
    s.puzzle.edge_clues.push(EdgeClue {
        edge: h_east,
        kind: EdgeClueKind::Gemini,
    });
    let v_north = s.grid.v_edge(0, 0);
    let v_south = s.grid.v_edge(1, 0);
    let _ = s.set_edge(v_north, EdgeState::Uncut);
    let before = s.edges.clone();
    assert_eq!(s.propagate_delta_gemini_interaction(), Ok(false));
    assert_eq!(s.edges, before);
    assert_eq!(s.edges[v_south], EdgeState::Unknown);
}

#[test]
fn bricky_forces_nothing_on_an_empty_grid() {
    let mut s = make_solver(GRID_3X3);
    s.puzzle.rules.bricky = true;
    s.puzzle.rules.loopy = false;
    assert_eq!(s.propagate_bricky_loopy(), Ok(false));
    assert!(s.edges.iter().all(|&e| e == EdgeState::Unknown));
}

#[test]
fn bricky_three_cuts_force_the_fourth_uncut() {
    let mut s = make_solver(GRID_3X3);
    s.puzzle.rules.bricky = true;
    let edges: Vec<usize> = s.grid.vertex_edges(1, 1).into_array().into_iter().flatten().collect();
    for &e in &edges[..3] {
        assert!(s.set_edge(e, EdgeState::Cut));
    }
    assert_eq!(s.propagate_bricky_loopy(), Ok(true));
    assert_eq!(s.edges[edges[3]], EdgeState::Uncut);
    // Every other edge stays undecided.
    let undecided = s.edges.iter().filter(|&&e| e == EdgeState::Unknown).count();
    assert_eq!(undecided, s.edges.len() - 4);
}

#[test]
fn loopy_three_cuts_force_the_fourth_cut() {
    let mut s = make_solver(GRID_3X3);
    s.puzzle.rules.loopy = true;
    let edges: Vec<usize> = s.grid.vertex_edges(1, 1).into_array().into_iter().flatten().collect();
    for &e in &edges[..3] {
        assert!(s.set_edge(e, EdgeState::Cut));
    }
    assert_eq!(s.propagate_bricky_loopy(), Ok(true));
    assert_eq!(s.edges[edges[3]], EdgeState::Cut);
}
