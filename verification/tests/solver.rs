use greg_calc::nullspace::nullspace;
use greg_calc::rational::Rat;

fn rat(n: i64, d: i64) -> Rat {
    Rat::new(n, d)
}

/// Multiplies a row-major matrix by a vector and checks every entry is
/// exactly zero.
fn assert_in_nullspace(matrix: &[Rat], columns: usize, v: &[Rat]) {
    assert_eq!(v.len(), columns);
    let rows = if columns == 0 { 0 } else { matrix.len() / columns };
    for r in 0..rows {
        let mut acc = Rat::zero();
        for c in 0..columns {
            acc = acc.add(&matrix[r * columns + c].mul(&v[c]));
        }
        assert!(acc.is_zero_rat());
    }
}

fn basis_vectors(flat: &[Rat], columns: usize) -> Vec<Vec<Rat>> {
    let mut out = Vec::new();
    let count = if columns == 0 { 0 } else { flat.len() / columns };
    for k in 0..count {
        let mut v = Vec::new();
        for c in 0..columns {
            v.push(flat[k * columns + c].clone_rat());
        }
        out.push(v);
    }
    out
}

#[test]
fn single_balance_row() {
    // one good: setup one produces two per second, setup two consumes
    // three per second
    let matrix = vec![rat(2, 1), rat(-3, 1)];
    let (free, basis) = nullspace(
        matrix.iter().map(|r| r.clone_rat()).collect(),
        2,
    );
    // the first column is the pivot, the second is free
    assert_eq!(free, vec![false, true]);
    let vs = basis_vectors(&basis, 2);
    assert_eq!(vs.len(), 1);
    // the basis vector carries three halves and one
    assert!(vs[0][0].eq_rat(&rat(3, 2)));
    assert!(vs[0][1].eq_rat(&rat(1, 1)));
    assert_in_nullspace(&matrix, 2, &vs[0]);
    // one basis vector: two columns minus rank one
    assert_eq!(vs.len(), 2 - 1);
}

#[test]
fn full_rank_has_empty_nullspace() {
    let matrix = vec![
        rat(1, 1),
        rat(0, 1),
        rat(0, 1),
        rat(1, 1),
    ];
    let (free, basis) = nullspace(matrix, 2);
    assert_eq!(free, vec![false, false]);
    assert!(basis.is_empty());
}

#[test]
fn zero_matrix_is_all_free() {
    let matrix = vec![rat(0, 1), rat(0, 1), rat(0, 1), rat(0, 1)];
    let (free, basis) = nullspace(
        matrix.iter().map(|r| r.clone_rat()).collect(),
        2,
    );
    assert_eq!(free, vec![true, true]);
    let vs = basis_vectors(&basis, 2);
    assert_eq!(vs.len(), 2);
    // unit vectors
    assert!(vs[0][0].eq_rat(&rat(1, 1)));
    assert!(vs[0][1].is_zero_rat());
    assert!(vs[1][0].is_zero_rat());
    assert!(vs[1][1].eq_rat(&rat(1, 1)));
    assert_in_nullspace(&matrix, 2, &vs[0]);
    assert_in_nullspace(&matrix, 2, &vs[1]);
}

#[test]
fn dependent_rows_leave_one_free_column() {
    // the second row is a multiple of the first: rank one
    let matrix = vec![
        rat(1, 1),
        rat(-2, 1),
        rat(2, 1),
        rat(-4, 1),
    ];
    let (free, basis) = nullspace(
        matrix.iter().map(|r| r.clone_rat()).collect(),
        2,
    );
    assert_eq!(free, vec![false, true]);
    let vs = basis_vectors(&basis, 2);
    assert_eq!(vs.len(), 2 - 1);
    assert_in_nullspace(&matrix, 2, &vs[0]);
    assert!(vs[0][0].eq_rat(&rat(2, 1)));
    assert!(vs[0][1].eq_rat(&rat(1, 1)));
}

#[test]
fn three_column_chain() {
    // two goods in a line: a feeds b, b feeds c
    // good one: 1 -1 0 ; good two: 0 2 -1
    let matrix = vec![
        rat(1, 1),
        rat(-1, 1),
        rat(0, 1),
        rat(0, 1),
        rat(2, 1),
        rat(-1, 1),
    ];
    let (free, basis) = nullspace(
        matrix.iter().map(|r| r.clone_rat()).collect(),
        3,
    );
    assert_eq!(free, vec![false, false, true]);
    let vs = basis_vectors(&basis, 3);
    assert_eq!(vs.len(), 3 - 2);
    assert_in_nullspace(&matrix, 3, &vs[0]);
    // the free setup fixes the two pivots: half speed upstream
    assert!(vs[0][0].eq_rat(&rat(1, 2)));
    assert!(vs[0][1].eq_rat(&rat(1, 2)));
    assert!(vs[0][2].eq_rat(&rat(1, 1)));
}

#[test]
fn pivot_needs_a_row_swap() {
    // the first row starts with zero, so elimination must look below
    let matrix = vec![
        rat(0, 1),
        rat(1, 1),
        rat(1, 1),
        rat(0, 1),
    ];
    let (free, basis) = nullspace(matrix, 2);
    assert_eq!(free, vec![false, false]);
    assert!(basis.is_empty());
}

#[test]
fn empty_input_yields_nothing() {
    let (free, basis) = nullspace(Vec::new(), 0);
    assert!(free.is_empty());
    assert!(basis.is_empty());
}
