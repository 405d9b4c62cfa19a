use aog::grid::Grid;

fn grid3x2() -> Grid {
    Grid::new(3, 2, true)
}

#[test]
fn cell_id_pos_roundtrip() {
    let g = grid3x2();
    for r in 0..3 {
        for c in 0..2 {
            assert_eq!(g.cell_pos(g.cell_id(r, c)), (r, c));
        }
    }
}

#[test]
fn h_v_edge_roundtrip() {
    let g = grid3x2();
    for r in 0..2 {
        for c in 0..2 {
            let e = g.h_edge(r, c);
            let (is_h, dr, dc) = g.decode_edge(e);
            assert!(is_h && dr == r && dc == c);
        }
    }
    for r in 0..3 {
        for c in 0..1 {
            let e = g.v_edge(r, c);
            let (is_h, dr, dc) = g.decode_edge(e);
            assert!(!is_h && dr == r && dc == c);
        }
    }
}

#[test]
fn edge_between() {
    let g = grid3x2();
    let e = g.edge_between(g.cell_id(1, 0), g.cell_id(1, 1));
    assert_eq!(e, g.edge_between(g.cell_id(1, 1), g.cell_id(1, 0)));
    assert_eq!(e, Some(g.v_edge(1, 0)));
    assert_eq!(g.edge_between(g.cell_id(0, 0), g.cell_id(1, 1)), None);
    assert_eq!(g.edge_between(g.cell_id(0, 0), g.cell_id(0, 0)), None);
}

#[test]
fn edge_cells_symmetry() {
    let g = grid3x2();
    for a in 0..g.num_cells() {
        for b in (a + 1)..g.num_cells() {
            if let Some(e) = g.edge_between(a, b) {
                let (c1, c2) = g.edge_cells(e);
                assert!((c1 == a && c2 == b) || (c1 == b && c2 == a));
            }
        }
    }
}

#[test]
fn cell_edges_corner() {
    let g = grid3x2();
    let ce = g.cell_edges(g.cell_id(0, 0));
    assert_eq!(ce.north, None);
    assert_eq!(ce.west, None);
    assert_eq!(ce.south, Some(g.h_edge(0, 0)));
    assert_eq!(ce.east, Some(g.v_edge(0, 0)));
}

#[test]
fn cell_edges_interior() {
    let g = Grid::new(3, 3, true);
    let ce = g.cell_edges(g.cell_id(1, 1));
    assert_eq!(ce.north, Some(g.h_edge(0, 1)));
    assert_eq!(ce.south, Some(g.h_edge(1, 1)));
    assert_eq!(ce.west, Some(g.v_edge(1, 0)));
    assert_eq!(ce.east, Some(g.v_edge(1, 1)));
}

#[test]
fn vertex_edges_corner_boundary() {
    let g = grid3x2();
    let ve = g.vertex_edges(0, 0);
    assert_eq!(ve.horiz.0, None);
    assert_eq!(ve.horiz.1, None);
    assert_eq!(ve.vert.0, None);
    assert_eq!(ve.vert.1, None);
}

#[test]
fn vertex_edges_top_edge_boundary() {
    let g = Grid::new(3, 3, true);
    let ve = g.vertex_edges(0, 1);
    assert_eq!(ve.horiz.0, None);
    assert_eq!(ve.horiz.1, None);
    assert_eq!(ve.vert.0, None);
    assert_eq!(ve.vert.1, Some(g.v_edge(0, 0)));
}

#[test]
fn vertex_edges_interior() {
    let g = Grid::new(3, 3, true);
    let ve = g.vertex_edges(1, 1);
    assert_eq!(ve.horiz.0, Some(g.h_edge(0, 0)));
    assert_eq!(ve.horiz.1, Some(g.h_edge(0, 1)));
    assert_eq!(ve.vert.0, Some(g.v_edge(0, 0)));
    assert_eq!(ve.vert.1, Some(g.v_edge(1, 0)));
}

#[test]
fn vertex_edges_sorted_principle() {
    let g = Grid::new(4, 5, true);
    for i in 0..=g.rows {
        for j in 0..=g.cols {
            let ve = g.vertex_edges(i, j);
            if let (Some(a), Some(b)) = ve.horiz {
                assert!(a < b, "horiz not sorted when both present at ({i},{j})");
            }
            if let (Some(a), Some(b)) = ve.vert {
                assert!(a < b, "vert not sorted when both present at ({i},{j})");
            }
        }
    }
}

#[test]
fn vertex_edges_touch_vertex() {
    let g = Grid::new(4, 5, true);
    for i in 0..=g.rows {
        for j in 0..=g.cols {
            let v = g.vertex(i, j);
            for maybe_e in g.vertex_edges(i, j).into_array() {
                if let Some(e) = maybe_e {
                    let (v1, v2) = g.edge_vertices(e);
                    assert!(
                        v1 == v || v2 == v,
                        "vertex_edges({i},{j}) returned edge {e}, but its endpoints are vertex {v1} and {v2}, not {v}"
                    );
                }
            }
        }
    }
}

#[test]
fn edge_vertices_covered_by_vertex_edges() {
    let g = Grid::new(4, 5, true);
    for e in 0..g.num_edges() {
        let (v1, v2) = g.edge_vertices(e);
        let (i1, j1) = g.vertex_pos(v1);
        let (i2, j2) = g.vertex_pos(v2);
        assert!(
            g.vertex_edges(i1, j1).into_array().into_iter().any(|x| x == Some(e)),
            "edge {e}'s vertex ({i1},{j1}) doesn't list it in vertex_edges"
        );
        assert!(
            g.vertex_edges(i2, j2).into_array().into_iter().any(|x| x == Some(e)),
            "edge {e}'s vertex ({i2},{j2}) doesn't list it in vertex_edges"
        );
    }
}

#[test]
fn single_cell_grid_no_edges() {
    let g = Grid::new(1, 1, true);
    assert_eq!(g.num_h_edges(), 0);
    assert_eq!(g.num_v_edges(), 0);
}

#[test]
fn existing_cells_are_counted() {
    let mut g = Grid::new(2, 3, true);
    assert_eq!(g.total_existing_cells(), 6);
    g.cell_exists[4] = false;
    assert_eq!(g.total_existing_cells(), 5);
}

#[test]
fn vertex_cells_at_a_corner() {
    let g = Grid::new(2, 2, true);
    assert_eq!(g.vertex_cells(0, 0), [None, None, None, Some(0)]);
    assert_eq!(g.vertex_cells(1, 1), [Some(0), Some(1), Some(2), Some(3)]);
    assert_eq!(g.vertex_pos(g.vertex(2, 1)), (2, 1));
}
