use aog::dlx::Dlx;

fn build(num_cols: usize, rows: &[(usize, &[usize])]) -> Dlx {
    let mut d = Dlx::new(num_cols);
    for (id, cols) in rows {
        d.add_row(*id, cols);
    }
    d
}

fn all_solutions(d: &mut Dlx) -> Vec<Vec<usize>> {
    let mut found: Vec<Vec<usize>> = Vec::new();
    let mut solution: Vec<usize> = Vec::new();
    let cont = d.search(&mut solution, &mut |s: &[usize]| {
        let mut v = s.to_vec();
        v.sort();
        found.push(v);
        true
    });
    assert!(cont);
    assert!(solution.is_empty());
    found.sort();
    found
}

#[test]
fn dlx_knuth_example_has_one_cover() {
    let rows: Vec<(usize, &[usize])> = vec![
        (1, &[2, 4, 5]),
        (2, &[0, 3, 6]),
        (3, &[1, 2, 5]),
        (4, &[0, 3]),
        (5, &[1, 6]),
        (6, &[3, 4, 6]),
    ];
    let mut d = build(7, &rows);
    assert_eq!(all_solutions(&mut d), vec![vec![1, 4, 5]]);
    // the structure is restored: a second search finds the same
    assert_eq!(all_solutions(&mut d), vec![vec![1, 4, 5]]);
}

#[test]
fn dlx_two_covers() {
    let rows: Vec<(usize, &[usize])> = vec![(10, &[0, 1]), (11, &[0]), (12, &[1])];
    let mut d = build(2, &rows);
    assert_eq!(all_solutions(&mut d), vec![vec![10], vec![11, 12]]);
}

#[test]
fn dlx_uncoverable_column_has_no_cover() {
    let rows: Vec<(usize, &[usize])> = vec![(1, &[0]), (2, &[0])];
    let mut d = build(2, &rows);
    assert_eq!(all_solutions(&mut d), Vec::<Vec<usize>>::new());
}

#[test]
fn dlx_overlapping_rows_are_not_a_cover() {
    let rows: Vec<(usize, &[usize])> = vec![(1, &[0, 1]), (2, &[1, 2])];
    let mut d = build(3, &rows);
    assert_eq!(all_solutions(&mut d), Vec::<Vec<usize>>::new());
}

#[test]
fn dlx_no_columns_reports_the_prefix_once() {
    let mut d = Dlx::new(0);
    let mut solution: Vec<usize> = vec![7];
    let mut calls: Vec<Vec<usize>> = Vec::new();
    let cont = d.search(&mut solution, &mut |s: &[usize]| {
        calls.push(s.to_vec());
        false
    });
    assert!(!cont);
    assert_eq!(calls, vec![vec![7]]);
    assert_eq!(solution, vec![7]);
}

#[test]
fn dlx_callback_false_stops_the_search() {
    let rows: Vec<(usize, &[usize])> = vec![(1, &[0]), (2, &[0]), (3, &[0])];
    let mut d = build(1, &rows);
    let mut solution: Vec<usize> = Vec::new();
    let mut calls = 0usize;
    let cont = d.search(&mut solution, &mut |_s: &[usize]| {
        calls += 1;
        false
    });
    assert!(!cont);
    assert_eq!(calls, 1);
    assert!(solution.is_empty());
    // without stopping, every row is a cover
    assert_eq!(all_solutions(&mut d), vec![vec![1], vec![2], vec![3]]);
}

#[test]
fn dlx_prefix_is_kept_in_reports() {
    let rows: Vec<(usize, &[usize])> = vec![(4, &[0, 1])];
    let mut d = build(2, &rows);
    let mut solution: Vec<usize> = vec![100, 200];
    let mut calls: Vec<Vec<usize>> = Vec::new();
    let cont = d.search(&mut solution, &mut |s: &[usize]| {
        calls.push(s.to_vec());
        true
    });
    assert!(cont);
    assert_eq!(calls, vec![vec![100, 200, 4]]);
    assert_eq!(solution, vec![100, 200]);
}

#[test]
fn dlx_row_check_prunes() {
    let rows: Vec<(usize, &[usize])> = vec![(10, &[0, 1]), (11, &[0]), (12, &[1])];
    let mut d = build(2, &rows);
    let mut solution: Vec<usize> = Vec::new();
    let mut found: Vec<Vec<usize>> = Vec::new();
    let mut checked: Vec<Vec<usize>> = Vec::new();
    // reject any partial solution holding row 10
    let cont = d.search_with_check(
        &mut solution,
        &mut |s: &[usize]| {
            checked.push(s.to_vec());
            !s.contains(&10)
        },
        &mut |s: &[usize]| {
            let mut v = s.to_vec();
            v.sort();
            found.push(v);
            true
        },
    );
    assert!(cont);
    assert_eq!(found, vec![vec![11, 12]]);
    assert!(checked.contains(&vec![10]));
    assert!(solution.is_empty());
}

#[test]
fn dlx_row_check_accepting_all_matches_search() {
    let rows: Vec<(usize, &[usize])> = vec![(1, &[0, 2]), (2, &[1]), (3, &[0, 1]), (4, &[2])];
    let mut d = build(3, &rows);
    let mut solution: Vec<usize> = Vec::new();
    let mut found: Vec<Vec<usize>> = Vec::new();
    let cont = d.search_with_check(&mut solution, &mut |_s: &[usize]| true, &mut |s: &[usize]| {
        let mut v = s.to_vec();
        v.sort();
        found.push(v);
        true
    });
    assert!(cont);
    found.sort();
    assert_eq!(found, all_solutions(&mut d));
    assert_eq!(found, vec![vec![1, 2], vec![3, 4]]);
}

#[test]
fn dlx_empty_row_adds_nothing() {
    let rows: Vec<(usize, &[usize])> = vec![(1, &[]), (2, &[0])];
    let mut d = build(1, &rows);
    assert_eq!(all_solutions(&mut d), vec![vec![2]]);
}

#[test]
fn dlx_fewest_rows_column_first() {
    // column 1 has one row, column 0 has two: the search starts at column 1,
    // so row 9 is always the first row of a reported solution
    let rows: Vec<(usize, &[usize])> = vec![(7, &[0]), (8, &[0]), (9, &[1])];
    let mut d = build(2, &rows);
    let mut solution: Vec<usize> = Vec::new();
    let mut calls: Vec<Vec<usize>> = Vec::new();
    d.search(&mut solution, &mut |s: &[usize]| {
        calls.push(s.to_vec());
        true
    });
    assert_eq!(calls, vec![vec![9, 7], vec![9, 8]]);
}
