use aog::formatter::format_solution;
use aog::parser::Parser;
use aog::solver::Solver;
use aog::types::EdgeState;

fn make_solver(input: &str) -> Solver {
    let mut p = Parser::new();
    p.parse(input.as_bytes()).unwrap();
    let mut s = Solver::new(p.puzzle, p.grid);
    for e in p.pre_cut_edges {
        s.mark_pre_cut(e);
    }
    s
}

#[test]
fn draws_two_rows() {
    let mut s = make_solver(
        "\
+---+---+
| _ . _ |
+ . + . +
| _ . _ |
+---+---+
",
    );
    let h0 = s.grid.h_edge(0, 0);
    let h1 = s.grid.h_edge(0, 1);
    let _ = s.set_edge(h0, EdgeState::Cut);
    let _ = s.set_edge(h1, EdgeState::Cut);
    for e in 0..s.grid.num_edges() {
        if s.edges[e] == EdgeState::Unknown {
            let _ = s.set_edge(e, EdgeState::Uncut);
        }
    }
    let pieces = s.compute_pieces();
    let text = format_solution(&s.grid, &s.edges, &pieces);
    assert_eq!(text, "+---+---+\n| 1   1 |\n+---+---+\n| 2   2 |\n+---+---+\n");
}

#[test]
fn draws_missing_cell_and_two_digit_labels() {
    let mut s = make_solver(
        "\
+---+---+---+---+---+---+---+---+---+---+---+
| _ . _ . _ . _ . _ . _ . _ . _ . _ . _ . _ |
+---+---+---+---+---+---+---+---+---+---+---+
",
    );
    for e in 0..s.grid.num_edges() {
        let _ = s.set_edge(e, EdgeState::Cut);
    }
    let pieces = s.compute_pieces();
    assert_eq!(pieces.len(), 11);
    let text = format_solution(&s.grid, &s.edges, &pieces);
    let lines: Vec<&str> = text.lines().collect();
    assert_eq!(lines.len(), 3);
    assert!(lines[1].starts_with("| 1 | 2 |"));
    assert!(lines[1].ends_with("|10 |11 |"));

    let mut m = make_solver(
        "\
+---+---+
| _ .   |
+---+---+
",
    );
    for e in 0..m.grid.num_edges() {
        if m.edges[e] == EdgeState::Unknown {
            let _ = m.set_edge(e, EdgeState::Uncut);
        }
    }
    let pieces = m.compute_pieces();
    let text = format_solution(&m.grid, &m.edges, &pieces);
    assert_eq!(text, "+---+    \n| 1 |    \n+---+    \n");
}
