use std::collections::HashSet;

use trisolve::{
    check_solver_dimensions, extract_stack_val, lsolve_csc_sparse_rhs, CsMat, CsVec, DStack,
    Entry, SprsError,
};

fn ents(v: &[(usize, i64)]) -> Vec<Entry> {
    v.iter().map(|&(ind, val)| Entry { ind, val }).collect()
}

fn csr(n: usize, rows: &[&[(usize, i64)]]) -> CsMat {
    CsMat::new_csr(n, n, rows.iter().map(|r| ents(r)).collect()).unwrap()
}

fn csc(n: usize, cols: &[&[(usize, i64)]]) -> CsMat {
    CsMat::new_csc(n, n, cols.iter().map(|c| ents(c)).collect()).unwrap()
}

fn sparse_support(
    m: &CsMat,
    b: &CsVec,
    cap: usize,
    n: usize,
) -> Result<HashSet<(usize, i64)>, SprsError> {
    let mut dstack = DStack::with_capacity(cap);
    let mut xw = vec![1i64; n];
    let mut visited = vec![false; n];
    lsolve_csc_sparse_rhs(m, b, &mut dstack, &mut xw, &mut visited)?;
    let mut got = HashSet::new();
    for v in dstack.iter_right() {
        let i = extract_stack_val(v);
        got.insert((i, xw[i]));
    }
    Ok(got)
}

#[test]
fn lsolve_csr_dense_rhs() {
    // |1    | |3|   |3|
    // |0 2  | |1| = |2|
    // |1 0 1| |1|   |4|
    let l = csr(3, &[&[(0, 1)], &[(1, 2)], &[(0, 1), (2, 1)]]);
    let b = vec![3, 2, 4];
    let mut x = b.clone();

    trisolve::lsolve_csr_dense_rhs(&l, &mut x).unwrap();
    assert_eq!(x, vec![3, 1, 1]);
}

#[test]
fn lsolve_csc_dense_rhs() {
    // |1    | |3|   |3|
    // |1 2  | |1| = |5|
    // |0 0 3| |1|   |3|
    let l = csc(3, &[&[(0, 1), (1, 1)], &[(1, 2)], &[(2, 3)]]);
    let b = vec![3, 5, 3];
    let mut x = b.clone();

    trisolve::lsolve_csc_dense_rhs(&l, &mut x).unwrap();
    assert_eq!(x, vec![3, 1, 1]);
}

#[test]
fn usolve_csc_dense_rhs() {
    // |1 0 1| |3|   |4|
    // |  2 0| |1| = |2|
    // |    3| |1|   |3|
    let u = csc(3, &[&[(0, 1)], &[(1, 2)], &[(0, 1), (2, 3)]]);
    let b = vec![4, 2, 3];
    let mut x = b.clone();

    trisolve::usolve_csc_dense_rhs(&u, &mut x).unwrap();
    assert_eq!(x, vec![3, 1, 1]);
}

#[test]
fn usolve_csr_dense_rhs() {
    // |1 1 0| |3|   |4|
    // |  5 3| |1| = |8|
    // |    1| |1|   |1|
    let u = csr(3, &[&[(0, 1), (1, 1)], &[(1, 5), (2, 3)], &[(2, 1)]]);
    let b = vec![4, 8, 1];
    let mut x = b.clone();

    trisolve::usolve_csr_dense_rhs(&u, &mut x).unwrap();
    assert_eq!(x, vec![3, 1, 1]);
}

#[test]
fn lspsolve_csc() {
    // |1        | | |   | |
    // |1 2      | |2| = |4|
    // |  3 3    | |1|   |9|
    // |      7  | | |   | |
    // |  2   3 5| |1|   |9|
    let l = csc(
        5,
        &[
            &[(0, 1), (1, 1)],
            &[(1, 2), (2, 3), (4, 2)],
            &[(2, 3)],
            &[(3, 7), (4, 3)],
            &[(4, 5)],
        ],
    );
    let b = CsVec::new(5, vec![1, 2, 4], vec![4, 9, 9]).unwrap();
    let got = sparse_support(&l, &b, 2 * 5, 5).unwrap();
    let expected: HashSet<(usize, i64)> = [(1, 2), (2, 1), (4, 1)].into_iter().collect();
    assert_eq!(got, expected);

    // |1            | |1|   |1|
    // |  2          | | | = | |
    // |1   3        | |2|   |7|
    // |      7      | |1|   |7|
    // |        5    | | |   | |
    // |    1     1  | |1|   |3|
    // |  3     2   2| | |   | |
    let l = csc(
        7,
        &[
            &[(0, 1), (2, 1)],
            &[(1, 2), (6, 3)],
            &[(2, 3), (5, 1)],
            &[(3, 7)],
            &[(4, 5), (6, 2)],
            &[(5, 1)],
            &[(6, 2)],
        ],
    );
    let b = CsVec::new(7, vec![0, 2, 3, 5], vec![1, 7, 7, 3]).unwrap();
    let got = sparse_support(&l, &b, 2 * 7, 7).unwrap();
    let expected: HashSet<(usize, i64)> =
        [(0, 1), (2, 2), (3, 1), (5, 1)].into_iter().collect();
    assert_eq!(got, expected);
}

#[test]
fn lsolve_csr_zero_diagonal_is_singular() {
    let l = csr(2, &[&[(0, 1)], &[(0, 1), (1, 0)]]);
    let mut x = vec![1, 1];
    assert_eq!(
        trisolve::lsolve_csr_dense_rhs(&l, &mut x),
        Err(SprsError::SingularMatrix)
    );
}

#[test]
fn lsolve_csc_missing_diagonal_is_singular() {
    let l = csc(2, &[&[(0, 1), (1, 1)], &[]]);
    let mut x = vec![1, 1];
    assert_eq!(
        trisolve::lsolve_csc_dense_rhs(&l, &mut x),
        Err(SprsError::SingularMatrix)
    );
}

#[test]
fn usolve_csr_zero_diagonal_is_singular() {
    let u = csr(2, &[&[(0, 0), (1, 1)], &[(1, 1)]]);
    let mut x = vec![1, 1];
    assert_eq!(
        trisolve::usolve_csr_dense_rhs(&u, &mut x),
        Err(SprsError::SingularMatrix)
    );
}

#[test]
fn usolve_csc_missing_diagonal_is_singular() {
    let u = csc(2, &[&[], &[(0, 1), (1, 1)]]);
    let mut x = vec![1, 1];
    assert_eq!(
        trisolve::usolve_csc_dense_rhs(&u, &mut x),
        Err(SprsError::SingularMatrix)
    );
}

#[test]
fn sparse_solve_rejects_row_major_storage() {
    let l = csr(2, &[&[(0, 1)], &[(1, 1)]]);
    let b = CsVec::new(2, vec![0], vec![1]).unwrap();
    let mut dstack = DStack::with_capacity(4);
    let mut xw = vec![0i64; 2];
    let mut visited = vec![false; 2];
    assert_eq!(
        lsolve_csc_sparse_rhs(&l, &b, &mut dstack, &mut xw, &mut visited),
        Err(SprsError::BadStorageType)
    );
    assert!(dstack.is_left_empty() && dstack.is_right_empty());
}

#[test]
fn sparse_solve_zero_pivot_in_support_is_singular() {
    // column 1 is reachable from the root at 0 but has no diagonal entry
    let l = csc(2, &[&[(0, 1), (1, 1)], &[]]);
    let b = CsVec::new(2, vec![0], vec![3]).unwrap();
    let mut dstack = DStack::with_capacity(8);
    let mut xw = vec![0i64; 2];
    let mut visited = vec![false; 2];
    assert_eq!(
        lsolve_csc_sparse_rhs(&l, &b, &mut dstack, &mut xw, &mut visited),
        Err(SprsError::SingularMatrix)
    );
}

#[test]
fn sparse_solve_skips_unreachable_columns() {
    // index 2 has a zero right-hand side and no path from the roots:
    // it stays out of the recovered support whatever its true value
    let l = csc(3, &[&[(0, 1)], &[(1, 2)], &[(2, 5)]]);
    let b = CsVec::new(3, vec![1], vec![6]).unwrap();
    let got = sparse_support(&l, &b, 6, 3).unwrap();
    let expected: HashSet<(usize, i64)> = [(1usize, 3i64)].into_iter().collect();
    assert_eq!(got, expected);
}

#[test]
fn sparse_solve_discovers_fill_in() {
    // index 1 and 2 carry no right-hand-side value but are reachable from
    // the root at 0, so they join the support; with a zeroed workspace
    // their values follow the substitution chain
    let l = csc(3, &[&[(0, 1), (1, 1)], &[(1, 1), (2, 1)], &[(2, 1)]]);
    let b = CsVec::new(3, vec![0], vec![5]).unwrap();
    let mut dstack = DStack::with_capacity(8);
    let mut xw = vec![0i64; 3];
    let mut visited = vec![false; 3];
    lsolve_csc_sparse_rhs(&l, &b, &mut dstack, &mut xw, &mut visited).unwrap();
    let mut got = HashSet::new();
    for v in dstack.iter_right() {
        let i = extract_stack_val(v);
        got.insert((i, xw[i]));
    }
    let expected: HashSet<(usize, i64)> = [(0, 5), (1, -5), (2, 5)].into_iter().collect();
    assert_eq!(got, expected);
}

#[test]
fn sparse_solve_same_inputs_same_support() {
    let build = || {
        csc(
            5,
            &[
                &[(0, 1), (1, 1)],
                &[(1, 2), (2, 3), (4, 2)],
                &[(2, 3)],
                &[(3, 7), (4, 3)],
                &[(4, 5)],
            ],
        )
    };
    let b = CsVec::new(5, vec![1, 2, 4], vec![4, 9, 9]).unwrap();
    let first = sparse_support(&build(), &b, 10, 5).unwrap();
    let second = sparse_support(&build(), &b, 10, 5).unwrap();
    assert_eq!(first, second);
}

#[test]
fn lsolve_same_solution_in_both_orientations() {
    let rows = csr(3, &[&[(0, 2)], &[(0, 4), (1, 2)], &[(1, 3), (2, 1)]]);
    let cols = csc(3, &[&[(0, 2), (1, 4)], &[(1, 2), (2, 3)], &[(2, 1)]]);
    let b = vec![6, 14, 4];
    let mut x1 = b.clone();
    let mut x2 = b.clone();
    trisolve::lsolve_csr_dense_rhs(&rows, &mut x1).unwrap();
    trisolve::lsolve_csc_dense_rhs(&cols, &mut x2).unwrap();
    assert_eq!(x1, x2);
    assert_eq!(x1, vec![3, 1, 1]);
}

#[test]
fn usolve_same_solution_in_both_orientations() {
    let rows = csr(3, &[&[(0, 2), (2, 4)], &[(1, 5), (2, 3)], &[(2, 1)]]);
    let cols = csc(3, &[&[(0, 2)], &[(1, 5)], &[(0, 4), (1, 3), (2, 1)]]);
    let b = vec![10, 8, 1];
    let mut x1 = b.clone();
    let mut x2 = b.clone();
    trisolve::usolve_csr_dense_rhs(&rows, &mut x1).unwrap();
    trisolve::usolve_csc_dense_rhs(&cols, &mut x2).unwrap();
    assert_eq!(x1, x2);
    assert_eq!(x1, vec![3, 1, 1]);
}

#[test]
fn dimension_check_matches_shape() {
    let l = csr(2, &[&[(0, 1)], &[(1, 1)]]);
    assert!(check_solver_dimensions(&l, &vec![1, 2]));
    assert!(!check_solver_dimensions(&l, &vec![1, 2, 3]));
    let rect = CsMat::new_csr(2, 3, vec![ents(&[(0, 1)]), ents(&[(2, 4)])]).unwrap();
    assert!(!check_solver_dimensions(&rect, &vec![1, 2]));
}

#[test]
fn constructors_validate_their_input() {
    // duplicate inner index within one row
    assert!(CsMat::new_csr(1, 1, vec![ents(&[(0, 1), (0, 2)])]).is_none());
    // inner index out of range
    assert!(CsMat::new_csc(2, 2, vec![ents(&[(2, 1)]), ents(&[])]).is_none());
    // one list per outer index
    assert!(CsMat::new_csr(2, 2, vec![ents(&[(0, 1)])]).is_none());
    // sparse vector indices must ascend strictly and stay in range
    assert!(CsVec::new(3, vec![1, 1], vec![4, 5]).is_none());
    assert!(CsVec::new(3, vec![2, 1], vec![4, 5]).is_none());
    assert!(CsVec::new(3, vec![3], vec![4]).is_none());
    assert!(CsVec::new(3, vec![0, 2], vec![4, 5]).is_some());
}

#[test]
fn wrapping_arithmetic_solves_exactly_at_the_edge() {
    // -(i64::MIN) wraps back to i64::MIN: dividing it by 1 after one
    // subtraction exercises the two's-complement contract
    let l = csr(2, &[&[(0, 1)], &[(0, 1), (1, 1)]]);
    let mut x = vec![i64::MIN, 0];
    trisolve::lsolve_csr_dense_rhs(&l, &mut x).unwrap();
    assert_eq!(x, vec![i64::MIN, 0i64.wrapping_sub(i64::MIN)]);
}
