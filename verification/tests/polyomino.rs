use aog::grid::Grid;
use aog::polyomino::{
    canonical, enumerate_free_polyominoes, get_named_shape, is_rectangular, is_rectangular_shape, make_shape,
    parse_shape, rotate, Rotation,
};
use aog::types::Piece;

#[test]
fn rotation_composition() {
    let pt = (3, 5);
    let (r1, c1) = Rotation::R90.transform(pt.0, pt.1);
    let (r2, c2) = Rotation::R90.transform(r1, c1);
    assert_eq!((r2, c2), Rotation::R180.transform(pt.0, pt.1));
    let (r3, c3) = Rotation::R90.transform(r2, c2);
    assert_eq!((r3, c3), Rotation::R270.transform(pt.0, pt.1));
    let (r4, c4) = Rotation::R90.transform(r3, c3);
    assert_eq!((r4, c4), pt);
}

#[test]
fn canonical_idempotent() {
    let shapes = ["I", "O", "T", "S", "Z", "L", "J", "F", "P", "N", "U", "V", "W", "X", "Y"];
    for &name in &shapes {
        let s = get_named_shape(name).unwrap();
        assert_eq!(canonical(&canonical(&s)), canonical(&s), "canonical not idempotent for {name}");
    }
}

#[test]
fn canonical_invariant_under_rotation() {
    let shapes = ["I", "O", "T", "S", "Z", "L", "J"];
    for &name in &shapes {
        let s = get_named_shape(name).unwrap();
        let c = canonical(&s);
        for rot in Rotation::all() {
            let rotated = make_shape(&rotate(&s.cells, rot, false));
            assert_eq!(canonical(&rotated), c, "canonical differs for {name} rotated {:?}", rot);
        }
    }
}

#[test]
fn canonical_invariant_under_flip() {
    let shapes = ["S", "Z", "L", "J"];
    for &name in &shapes {
        let s = get_named_shape(name).unwrap();
        let c = canonical(&s);
        let flipped = make_shape(&rotate(&s.cells, Rotation::R0, true));
        assert_eq!(canonical(&flipped), c, "canonical differs for {name} flipped");
    }
}

#[test]
fn s_and_z_same_under_canonical() {
    let s = canonical(&get_named_shape("S").unwrap());
    let z = canonical(&get_named_shape("Z").unwrap());
    assert_eq!(s, z, "S and Z should be same canonical form (mirror images)");
}

#[test]
fn l_and_j_same_under_flip() {
    let l = canonical(&get_named_shape("L").unwrap());
    let j = canonical(&get_named_shape("J").unwrap());
    assert_eq!(l, j, "L and J should be same canonical form");
}

#[test]
fn parse_shape_basic() {
    let lines = ["##.", ".#.", ".##"];
    let shape = parse_shape(&lines);
    assert_eq!(shape.cells.len(), 5);
    assert_eq!(shape.height, 3);
    assert_eq!(shape.width, 3);
}

#[test]
fn is_rectangular_shape_basic() {
    let i = get_named_shape("I").unwrap();
    assert!(is_rectangular_shape(&i));
    let o = get_named_shape("O").unwrap();
    assert!(is_rectangular_shape(&o));
    let t = get_named_shape("T").unwrap();
    assert!(!is_rectangular_shape(&t));
    let l = get_named_shape("L").unwrap();
    assert!(!is_rectangular_shape(&l));
    let x = get_named_shape("X").unwrap();
    assert!(!is_rectangular_shape(&x));
}

#[test]
fn is_rectangular_with_grid() {
    let g = Grid::new(3, 3, true);
    let p = Piece {
        cells: vec![g.cell_id(0, 0), g.cell_id(0, 1), g.cell_id(1, 0), g.cell_id(1, 1)],
        ..Piece::default()
    };
    assert!(is_rectangular(&p, &g));
    let p2 = Piece {
        cells: vec![g.cell_id(0, 0), g.cell_id(1, 0), g.cell_id(2, 0), g.cell_id(2, 1)],
        ..Piece::default()
    };
    assert!(!is_rectangular(&p2, &g));
}

#[test]
fn enumerate_counts() {
    let expected = [1, 1, 2, 5, 12, 35, 108, 369];
    for (i, &exp) in expected.iter().enumerate() {
        let n = i + 1;
        let shapes = enumerate_free_polyominoes(n);
        assert_eq!(shapes.len(), exp, "enumerate_free_polyominoes({n}) = {}, expected {exp}", shapes.len());
    }
}

#[test]
fn enumerate_all_canonical() {
    for n in 1..=8 {
        for shape in enumerate_free_polyominoes(n) {
            assert_eq!(shape, canonical(&shape), "enumerated shape of size {n} is not in canonical form");
        }
    }
}

#[test]
fn enumerate_n1_monomino() {
    let shapes = enumerate_free_polyominoes(1);
    assert_eq!(shapes.len(), 1);
    assert_eq!(shapes[0].cells, vec![(0, 0)]);
}

#[test]
fn enumerate_zero_is_empty() {
    assert!(enumerate_free_polyominoes(0).is_empty());
}

#[test]
fn make_shape_normalizes() {
    let s = make_shape(&[(5, 7), (4, 7), (4, 8)]);
    assert_eq!(s.height, 2);
    assert_eq!(s.width, 2);
    assert_eq!(s.cells, vec![(0, 0), (0, 1), (1, 0)]);
}

#[test]
fn named_shapes_sizes() {
    assert_eq!(get_named_shape("o").unwrap().cells.len(), 1);
    assert_eq!(get_named_shape("TT").unwrap().cells.len(), 5);
    assert!(get_named_shape("nope").is_none());
}
