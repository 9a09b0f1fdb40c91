use number_puzzle::op::{apply_op, Op, OpError};
use number_puzzle::search::{
    generate_next_state, search, ProblemDefinition, SearchState, Solution, Step,
};

fn found(p: &ProblemDefinition) -> Vec<Solution> {
    let outcome = search(p);
    assert_eq!(outcome.error, None);
    outcome.solutions
}

fn problem(start: i32, goal: i32, moves: u32, ops: Vec<Op>) -> ProblemDefinition {
    ProblemDefinition { start, goal, moves, ops }
}

fn replays(sol: &Solution) -> bool {
    let mut v = sol.start;
    for step in &sol.path {
        match apply_op(v, &step.op) {
            Ok(n) if n == step.value => v = n,
            _ => return false,
        }
    }
    v == sol.goal
}

#[test]
fn no_moves_start_is_goal() {
    let sols = found(&problem(4, 4, 0, vec![Op::Add(1)]));
    assert_eq!(sols.len(), 1);
    assert!(sols[0].path.is_empty());
    assert_eq!(sols[0].start, 4);
    assert_eq!(sols[0].goal, 4);
}

#[test]
fn no_moves_start_is_not_goal() {
    let sols = found(&problem(4, 5, 0, vec![Op::Add(1)]));
    assert!(sols.is_empty());
}

#[test]
fn multiply_then_add_example() {
    let p = problem(5, 25, 2, vec![Op::Multiply(5), Op::Add(1)]);
    let sols = found(&p);
    assert_eq!(sols.len(), 1);
    assert_eq!(sols[0].path, vec![Step { op: Op::Multiply(5), value: 25 }]);
    assert_eq!(sols[0].start, 5);
    assert_eq!(sols[0].goal, 25);
}

#[test]
fn hits_continue_past_the_goal() {
    let p = problem(2, 4, 3, vec![Op::Add(2), Op::Negate]);
    let sols = found(&p);
    let paths: Vec<Vec<Step>> = sols.iter().map(|s| s.path.clone()).collect();
    let add = |value| Step { op: Op::Add(2), value };
    let neg = |value| Step { op: Op::Negate, value };
    assert_eq!(
        paths,
        vec![
            vec![add(4)],
            vec![add(4), neg(-4), neg(4)],
            vec![neg(-2), neg(2), add(4)],
        ]
    );
}

#[test]
fn every_solution_replays_to_the_goal() {
    let p = problem(3, 12, 4, vec![Op::Add(3), Op::Multiply(2), Op::Subtract(1), Op::Insert(2)]);
    let sols = found(&p);
    assert!(!sols.is_empty());
    for sol in &sols {
        assert!(replays(sol));
        assert!(sol.path.len() <= 4);
    }
}

#[test]
fn search_is_deterministic() {
    let p = problem(1, 6, 4, vec![Op::Add(1), Op::Multiply(2), Op::Subtract(1)]);
    let a = found(&p);
    let b = found(&p);
    assert_eq!(a.len(), b.len());
    for (x, y) in a.iter().zip(b.iter()) {
        assert_eq!(x.path, y.path);
        assert_eq!(x.start, y.start);
        assert_eq!(x.goal, y.goal);
    }
}

#[test]
fn every_branch_is_explored() {
    // Both operations keep the value, so every visited node is a hit:
    // 1 root + 2 + 4 + 8 branches.
    let p = problem(7, 7, 3, vec![Op::Add(0), Op::Multiply(1)]);
    assert_eq!(found(&p).len(), 15);
    let p = problem(7, 7, 2, vec![Op::Add(0), Op::Add(0), Op::Negate]);
    // 1 + 3 + 9 nodes; the ones that negate an odd number of times miss.
    assert_eq!(found(&p).len(), 1 + 2 + 4 + 1);
}

#[test]
fn divide_by_zero_first_aborts() {
    let p = problem(5, 5, 1, vec![Op::Divide(0), Op::Add(0)]);
    assert_eq!(search(&p).error.unwrap(), OpError::DivideByZero);
}

#[test]
fn divide_by_zero_later_aborts() {
    let p = problem(1, 3, 2, vec![Op::Add(1), Op::Add(2), Op::Divide(0)]);
    let outcome = search(&p);
    assert_eq!(outcome.error, Some(OpError::DivideByZero));
    // Visited before the failure: 1, 2, 3 (a hit), 4; then 2 / 0 fails.
    assert_eq!(outcome.solutions.len(), 1);
    assert_eq!(
        outcome.solutions[0].path,
        vec![Step { op: Op::Add(1), value: 2 }, Step { op: Op::Add(1), value: 3 }]
    );
}

#[test]
fn earlier_error_wins() {
    let p = problem(i32::MAX, 0, 2, vec![Op::Negate, Op::Divide(0)]);
    // The Negate branch first reaches -i32::MAX, whose Negate is fine and
    // whose Divide(0) fails.
    assert_eq!(search(&p).error.unwrap(), OpError::DivideByZero);
    let p = problem(i32::MAX, 0, 1, vec![Op::Add(1), Op::Divide(0)]);
    assert_eq!(search(&p).error.unwrap(), OpError::Overflow);
}

#[test]
fn no_moves_never_applies_an_operation() {
    let p = problem(3, 3, 0, vec![Op::Divide(0)]);
    assert_eq!(found(&p).len(), 1);
}

#[test]
fn next_state_extends_the_path() {
    let s = SearchState { value: 6, path: vec![Step { op: Op::Add(1), value: 6 }] };
    let n = generate_next_state(&s, &Op::Multiply(3)).unwrap();
    assert_eq!(n.value, 18);
    assert_eq!(
        n.path,
        vec![Step { op: Op::Add(1), value: 6 }, Step { op: Op::Multiply(3), value: 18 }]
    );
    assert_eq!(s.path.len(), 1);
    assert_eq!(generate_next_state(&s, &Op::Divide(0)).unwrap_err(), OpError::DivideByZero);
}

#[test]
fn hits_before_a_failure_are_kept() {
    let p = problem(0, 1, 1, vec![Op::Add(1), Op::Divide(0)]);
    let outcome = search(&p);
    assert_eq!(outcome.error, Some(OpError::DivideByZero));
    assert_eq!(outcome.solutions.len(), 1);
    assert_eq!(outcome.solutions[0].path, vec![Step { op: Op::Add(1), value: 1 }]);
}

#[test]
fn empty_path_hit_before_a_failure_is_kept() {
    let p = problem(6, 6, 1, vec![Op::Divide(0)]);
    let outcome = search(&p);
    assert_eq!(outcome.error, Some(OpError::DivideByZero));
    assert_eq!(outcome.solutions.len(), 1);
    assert!(outcome.solutions[0].path.is_empty());
}

#[test]
fn branches_after_a_failure_are_not_explored() {
    // Add(2) would reach the goal, but Divide(0) comes first in the catalog.
    let p = problem(1, 3, 1, vec![Op::Divide(0), Op::Add(2)]);
    let outcome = search(&p);
    assert_eq!(outcome.error, Some(OpError::DivideByZero));
    assert!(outcome.solutions.is_empty());
}
