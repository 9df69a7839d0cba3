use symnebula::solvers::{
    EvalSolver, MultiNewtonSolver, NewtonSolver, NewtonStatus, StdNewtonSolver,
    SymplecticEulerIntegrator,
};
use symnebula::symbols::Symbol;

#[test]
fn newton_solver_keeps_state_per_node() {
    let mut s: NewtonSolver<(i64, bool)> = NewtonSolver::new();
    assert_eq!(s.get_state(3, (30, false)), (30, false));
    // the first state is kept: a later default does not replace it
    assert_eq!(s.get_state(3, (99, true)), (30, false));
    s.set_state(3, (7, true));
    assert_eq!(s.get_state(3, (0, false)), (7, true));
    assert_eq!(s.get_state(4, (1, false)), (1, false));
}

#[test]
fn registry_names_and_priorities() {
    let n: NewtonSolver<u8> = NewtonSolver::new();
    assert_eq!(n.name(), "newton");
    assert_eq!(n.priority(), 200);
    let e = EvalSolver::new();
    assert_eq!(e.name(), "eval");
    assert_eq!(e.priority(), 100);
    assert_eq!(SymplecticEulerIntegrator::new().name(), "symplectic_euler");
    let _ = StdNewtonSolver::new();
    let _ = MultiNewtonSolver::new();
}

#[test]
fn newton_status_and_symbol() {
    assert_ne!(NewtonStatus::Converged, NewtonStatus::Singular);
    assert_eq!(NewtonStatus::StepTaken, NewtonStatus::StepTaken);
    let s = Symbol { name: "x".to_string() };
    assert_eq!(s.clone().name, "x");
}

#[test]
fn test_auto_select_targets() {
    let expr = symnebula::expr::parse_simple_eq("a + b = 10").unwrap();
    let defined = vec!["a".to_string()];
    let targets = symnebula::solvers::auto_select_solve_targets(&expr, &defined);
    assert_eq!(targets, vec!["b".to_string()]);
    assert_eq!(symnebula::solvers::first_unknown(&expr, &defined), Some("b".to_string()));
    let all = vec!["a".to_string(), "b".to_string()];
    assert_eq!(symnebula::solvers::first_unknown(&expr, &all), None);
}

#[test]
fn solvers_support_by_formula_kind() {
    let eq = symnebula::expr::parse_simple_eq("x = 1").unwrap();
    let ex = symnebula::expr::parse_side("x + 1").unwrap();
    let n: NewtonSolver<u8> = NewtonSolver::new();
    assert!(n.supports(&eq));
    assert!(!n.supports(&ex));
    assert!(EvalSolver::new().supports(&ex));
    assert!(!EvalSolver::new().supports(&eq));
}
