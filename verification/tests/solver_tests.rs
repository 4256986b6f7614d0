use terraflow::SparseMatrix;
use terraflow::SparseSystem;

fn two_by_two_dominant() -> SparseMatrix {
    let rows = vec![0usize, 0, 1, 1];
    let cols = vec![0usize, 1, 0, 1];
    let values = vec![4i64, 1, 1, 4];
    SparseMatrix::from_vecs(&rows, &cols, &values)
}

#[test]
fn dominant_matrix_passes_precheck() {
    let m = two_by_two_dominant();
    let b = vec![6i64, 9];
    let system = SparseSystem::new(&m, &b);
    assert!(system.is_gauss_seidel_convergent());
}

#[test]
fn violating_row_fails_precheck_and_solver_stops() {
    let rows = vec![0usize, 0, 1];
    let cols = vec![0usize, 1, 1];
    let values = vec![1i64, 5, 1];
    let m = SparseMatrix::from_vecs(&rows, &cols, &values);
    let b = vec![1i64, 1];
    let system = SparseSystem::new(&m, &b);
    assert!(!system.is_gauss_seidel_convergent());
    let res = system.gauss_seidel_solve(&vec![0, 0], 1, 100);
    assert_eq!(res.diagonal_dominance, Some(false));
    assert!(!res.converged);
    assert_eq!(res.iters, 0);
    assert!(res.solution.is_none());
    assert!(!res.max_iters_reached);
}

#[test]
fn solve_converges_to_known_solution() {
    let m = two_by_two_dominant();
    let b = vec![6i64, 9];
    let system = SparseSystem::new(&m, &b);
    let res = system.gauss_seidel_solve(&vec![0, 0], 1, 50);
    assert!(res.converged);
    assert_eq!(res.diagonal_dominance, Some(true));
    assert_eq!(res.solution, Some(vec![1, 2]));
    assert_eq!(res.error, Some(0));
    assert!(res.iters >= 1 && res.iters <= 50);
    assert!(!res.max_iters_reached);
}

#[test]
fn solve_rejects_wrong_dimensions() {
    let m = two_by_two_dominant();
    let b = vec![6i64, 9];
    let system = SparseSystem::new(&m, &b);
    let res = system.gauss_seidel_solve(&vec![0, 0, 0], 1, 10);
    assert!(res.solution.is_none());
    assert!(!res.converged);
    assert_eq!(res.diagonal_dominance, None);
    assert_eq!(res.iters, 0);
    assert!(!res.max_iters_reached);
    assert!(res.error.is_none());
}

#[test]
fn solve_reports_zero_diagonal() {
    let rows = vec![0usize];
    let cols = vec![0usize];
    let values = vec![0i64];
    let m = SparseMatrix::from_vecs(&rows, &cols, &values);
    let b = vec![0i64];
    let system = SparseSystem::new(&m, &b);
    let res = system.gauss_seidel_solve(&vec![0], 1, 10);
    assert_eq!(res.diagonal_dominance, Some(true));
    assert!(!res.converged);
    assert_eq!(res.iters, 0);
    assert!(res.solution.is_none());
}

#[test]
fn solve_exhausts_sweep_budget_without_converging() {
    let rows = vec![0usize];
    let cols = vec![0usize];
    let values = vec![2i64];
    let m = SparseMatrix::from_vecs(&rows, &cols, &values);
    let b = vec![1i64];
    let system = SparseSystem::new(&m, &b);
    let res = system.gauss_seidel_solve(&vec![0], 0, 3);
    assert!(!res.converged);
    assert!(res.max_iters_reached);
    assert_eq!(res.iters, 3);
    assert_eq!(res.solution, Some(vec![0]));
    assert_eq!(res.error, Some(1));
}

#[test]
fn error_sq_is_exact() {
    let rows = vec![0usize];
    let cols = vec![0usize];
    let values = vec![1i64];
    let m = SparseMatrix::from_vecs(&rows, &cols, &values);
    let b = vec![3i64];
    let system = SparseSystem::new(&m, &b);
    assert_eq!(system.error_sq(&vec![1]), Some(4));
    assert_eq!(system.error_sq(&vec![3]), Some(0));
}

#[test]
fn solve_random_dominant_system_runs() {
    let m = SparseMatrix::random(10, 15, true);
    let b = m.random_vec_like();
    let x0 = m.random_vec_like();
    let system = SparseSystem::new(&m, &b);
    assert!(system.is_gauss_seidel_convergent());
    let res = system.gauss_seidel_solve(&x0, 1000, 200);
    assert_eq!(res.diagonal_dominance, Some(true));
}
