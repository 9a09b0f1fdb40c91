use number_puzzle::op::{Op, OpError};
use number_puzzle::search::{search, ProblemDefinition, Solution, Step};
use number_puzzle::stepper::Searcher;

fn problem(start: i32, goal: i32, moves: u32, ops: Vec<Op>) -> ProblemDefinition {
    ProblemDefinition { start, goal, moves, ops }
}

fn run(p: &ProblemDefinition) -> (Vec<Solution>, Option<OpError>) {
    let mut s = Searcher::new(p.clone());
    let mut found = Vec::new();
    while !s.is_finished() {
        if let Some(sol) = s.advance() {
            found.push(sol);
        }
    }
    (found, s.error)
}

fn same(p: &ProblemDefinition) {
    let (found, error) = run(p);
    let outcome = search(p);
    assert_eq!(error, outcome.error);
    assert_eq!(found.len(), outcome.solutions.len());
    for (a, b) in found.iter().zip(outcome.solutions.iter()) {
        assert_eq!(a.path, b.path);
        assert_eq!(a.start, b.start);
        assert_eq!(a.goal, b.goal);
    }
}

#[test]
fn stepping_matches_search() {
    same(&problem(2, 4, 3, vec![Op::Add(2), Op::Negate]));
    same(&problem(3, 12, 4, vec![Op::Add(3), Op::Multiply(2), Op::Subtract(1), Op::Insert(2)]));
    same(&problem(7, 7, 3, vec![Op::Add(0), Op::Multiply(1)]));
    same(&problem(4, 4, 0, vec![Op::Add(1)]));
    same(&problem(1, 3, 2, vec![Op::Add(1), Op::Add(2), Op::Divide(0)]));
    same(&problem(i32::MAX, 0, 1, vec![Op::Add(1), Op::Divide(0)]));
}

#[test]
fn stepping_yields_the_example_solution() {
    let (found, error) = run(&problem(5, 25, 2, vec![Op::Multiply(5), Op::Add(1)]));
    assert_eq!(error, None);
    assert_eq!(found.len(), 1);
    assert_eq!(found[0].path, vec![Step { op: Op::Multiply(5), value: 25 }]);
}

#[test]
fn stepping_can_stop_at_the_first_solution() {
    // Every node is a hit; the caller stops after the first one.
    let mut s = Searcher::new(problem(1, 1, 30, vec![Op::Add(0), Op::Multiply(1)]));
    let first = loop {
        if let Some(sol) = s.advance() {
            break sol;
        }
    };
    assert!(first.path.is_empty());
    assert!(!s.is_finished());
    let second = loop {
        if let Some(sol) = s.advance() {
            break sol;
        }
    };
    assert_eq!(second.path, vec![Step { op: Op::Add(0), value: 1 }]);
}

#[test]
fn stepping_keeps_hits_before_a_failure() {
    let (found, error) = run(&problem(0, 1, 1, vec![Op::Add(1), Op::Divide(0)]));
    assert_eq!(error, Some(OpError::DivideByZero));
    assert_eq!(found.len(), 1);
    assert_eq!(found[0].path, vec![Step { op: Op::Add(1), value: 1 }]);
}

#[test]
fn a_finished_search_stays_finished() {
    let mut s = Searcher::new(problem(3, 3, 0, vec![Op::Add(1)]));
    assert!(!s.is_finished());
    assert!(s.advance().is_some());
    assert!(s.is_finished());
    assert!(s.advance().is_none());
    assert!(s.is_finished());
    assert_eq!(s.error, None);
}
