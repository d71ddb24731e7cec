use nume_rs::ops::{MatMul, VecElementwiseArithmetic};
use nume_rs::rat::Rat;
use nume_rs::sle::{rat_dot, residual_is_zero, solve_gauss, solve_gauss_checked, SolveError};

fn r(num: i64, den: i64) -> Rat {
    Rat::new(num, den).unwrap()
}

/// The three-by-three demonstration system with decimal entries.
fn demo_system() -> (Vec<Vec<Rat>>, Vec<Rat>) {
    let a = vec![
        vec![r(4, 1), r(1, 1), r(359, 100)],
        vec![r(410, 100), r(-124, 100), r(346, 100)],
        vec![r(-120, 100), r(512, 100), r(131, 100)],
    ];
    let b = vec![r(51, 100), r(164, 100), r(762, 100)];
    (a, b)
}

#[test]
fn demo_system_solution_has_zero_residual() {
    let (a, b) = demo_system();
    let x = solve_gauss(&a, &b, &None).unwrap();
    assert_eq!(x.len(), 3);
    assert_eq!(residual_is_zero(&a, &b, &x), Some(true));
}

#[test]
fn demo_system_checked_solve_succeeds() {
    let (a, b) = demo_system();
    let x = solve_gauss_checked(&a, &b, &None).unwrap();
    assert_eq!(x.len(), 3);
}

#[test]
fn degenerate_second_row_is_invalid() {
    let a = vec![vec![r(1, 1), r(0, 1)], vec![r(0, 1), r(0, 1)]];
    let b = vec![r(1, 1), r(1, 1)];
    assert_eq!(solve_gauss(&a, &b, &None), Err(SolveError::Invalid));
    assert_eq!(solve_gauss_checked(&a, &b, &None), None);
}

#[test]
fn zero_row_is_invalid() {
    let a = vec![
        vec![r(2, 1), r(1, 1), r(5, 1)],
        vec![r(0, 1), r(0, 1), r(0, 1)],
        vec![r(1, 1), r(-3, 1), r(2, 1)],
    ];
    let b = vec![r(1, 1), r(1, 1), r(1, 1)];
    assert_eq!(solve_gauss(&a, &b, &None), Err(SolveError::Invalid));
}

#[test]
fn identity_system_returns_right_hand_side() {
    let a = vec![vec![r(1, 1), r(0, 1)], vec![r(0, 1), r(1, 1)]];
    let b = vec![r(7, 2), r(-4, 3)];
    let x = solve_gauss(&a, &b, &None).unwrap();
    assert!(x[0].eq_value(r(7, 2)));
    assert!(x[1].eq_value(r(-4, 3)));
}

#[test]
fn known_two_by_two_solution() {
    // 2x + y = 5, x - y = 1 has x = 2, y = 1.
    let a = vec![vec![r(2, 1), r(1, 1)], vec![r(1, 1), r(-1, 1)]];
    let b = vec![r(5, 1), r(1, 1)];
    let x = solve_gauss(&a, &b, &None).unwrap();
    assert!(x[0].eq_value(r(2, 1)));
    assert!(x[1].eq_value(r(1, 1)));
}

#[test]
fn solving_twice_gives_identical_results() {
    let (a, b) = demo_system();
    let x1 = solve_gauss(&a, &b, &None).unwrap();
    let x2 = solve_gauss(&a, &b, &None).unwrap();
    assert_eq!(x1, x2);
    // The inputs are untouched and still describe the same system.
    let (a2, b2) = demo_system();
    assert_eq!(a, a2);
    assert_eq!(b, b2);
}

#[test]
fn large_epsilon_rejects_a_regular_system() {
    let a = vec![vec![r(1, 1), r(0, 1)], vec![r(0, 1), r(1, 1)]];
    let b = vec![r(1, 1), r(1, 1)];
    let eps = Some(r(2, 1));
    assert_eq!(solve_gauss(&a, &b, &eps), Err(SolveError::Invalid));
}

#[test]
fn overflow_is_reported() {
    let huge = Rat::from_int(i64::MAX);
    let a = vec![
        vec![huge, Rat::from_int(1)],
        vec![Rat::from_int(1), huge],
    ];
    let b = vec![Rat::from_int(1), Rat::from_int(1)];
    assert_eq!(solve_gauss(&a, &b, &None), Err(SolveError::Overflow));
}

#[test]
fn residual_detects_a_wrong_candidate() {
    let (a, b) = demo_system();
    let wrong = vec![r(1, 1), r(1, 1), r(1, 1)];
    assert_eq!(residual_is_zero(&a, &b, &wrong), Some(false));
}

#[test]
fn rat_dot_exact_value() {
    // (1/2)*4 + (2/3)*3 = 4.
    let row = vec![r(1, 2), r(2, 3)];
    let x = vec![r(4, 1), r(3, 1)];
    let d = rat_dot(&row, &x).unwrap();
    assert!(d.eq_value(r(4, 1)));
}

#[test]
fn threshold_edge_candidate_is_rejected() {
    // With eps equal to the pivot magnitude, forward elimination skips the
    // column (|pivot| > eps fails) while backward substitution accepts it
    // (|pivot| < eps fails), so elimination is incomplete; the residual
    // confirmation inside solve_gauss reports the run as Invalid instead
    // of returning a vector that does not solve the system.
    let a = vec![vec![r(1, 1), r(5, 1)], vec![r(5, 1), r(1, 1)]];
    let b = vec![r(1, 1), r(1, 1)];
    let eps = Some(r(5, 1));
    assert_eq!(solve_gauss(&a, &b, &eps), Err(SolveError::Invalid));
}

#[test]
fn residual_via_ops_library_is_zero() {
    let (a, b) = demo_system();
    let x = solve_gauss(&a, &b, &None).unwrap();
    let ax = a.matmul(&x).unwrap();
    let resid = ax.elementwise_sub(&b).unwrap();
    assert!(resid.iter().all(|e| e.is_zero()));
}

#[test]
fn zero_row_beats_overflow() {
    // The zero-row scan runs before elimination, so the singularity is
    // reported even where the huge entries would overflow an elimination
    // step.
    let huge = Rat::from_int(i64::MAX);
    let a = vec![
        vec![huge, Rat::from_int(1), huge],
        vec![Rat::zero(), Rat::zero(), Rat::zero()],
        vec![Rat::from_int(1), huge, huge],
    ];
    let b = vec![Rat::from_int(1), Rat::from_int(1), Rat::from_int(1)];
    assert_eq!(solve_gauss(&a, &b, &None), Err(SolveError::Invalid));
}
