//! Depth-bounded exhaustive search over sequences of catalog operations.
//!
//! The traversal is pre-order, trying the catalog in its own order at every
//! level. Every visited state whose value equals the goal yields a solution,
//! and descent continues past it. The first operation that fails, in
//! traversal order, aborts the search: the solutions found before it are
//! reported together with that failure, and no later branch is explored.

use vstd::prelude::*;

use crate::op::{apply_op, apply_spec, Op, OpError};

verus! {

/// One step of a path: the operation applied and the value it produced.
#[derive(Clone, Copy, Debug, PartialEq, Eq, Structural)]
pub struct Step {
    pub op: Op,
    pub value: i32,
}

/// A puzzle: reach `goal` from `start` with at most `moves` operations,
/// each taken from `ops`.
#[derive(Clone, Debug)]
pub struct ProblemDefinition {
    pub start: i32,
    pub goal: i32,
    pub moves: u32,
    /// The catalog; its order is the order in which branches are explored.
    pub ops: Vec<Op>,
}

/// A node of the search tree: the current value and the steps that led to it.
#[derive(Clone, Debug)]
pub struct SearchState {
    pub value: i32,
    pub path: Vec<Step>,
}

/// A path from `start` that ends on `goal`.
#[derive(Clone, Debug)]
pub struct Solution {
    pub start: i32,
    pub goal: i32,
    pub path: Vec<Step>,
}

/// The value at the end of `path`, where `start` is the value before it.
pub open spec fn end_value(start: i32, path: Seq<Step>) -> i32 {
    if path.len() == 0 {
        start
    } else {
        path.last().value
    }
}

/// `path` extended by applying `op` with result `v`.
pub open spec fn extend(path: Seq<Step>, op: Op, v: i32) -> Seq<Step> {
    path.push(Step { op, value: v })
}

/// The paths visited from the node (`value`, `path`) with `moves_left`
/// moves to go, in pre-order, the node itself first, up to the first
/// operation that fails; and that failure, if there is one.
#[verifier::opaque]
pub open spec fn visit(ops: Seq<Op>, value: i32, path: Seq<Step>, moves_left: nat) -> (
    Seq<Seq<Step>>,
    Option<OpError>,
)
    decreases moves_left, 0nat,
{
    if moves_left == 0 {
        (seq![path], None)
    } else {
        let below = expand(ops, value, path, (moves_left - 1) as nat, ops.len());
        (seq![path] + below.0, below.1)
    }
}

/// The paths visited below the node (`value`, `path`) through the first `i`
/// operations of the catalog, each child having `moves_left` moves to go, up
/// to the first failure; and that failure, if there is one.
#[verifier::opaque]
pub open spec fn expand(ops: Seq<Op>, value: i32, path: Seq<Step>, moves_left: nat, i: nat) -> (
    Seq<Seq<Step>>,
    Option<OpError>,
)
    decreases moves_left, i + 1,
{
    if i == 0 {
        (Seq::empty(), None)
    } else {
        let front = expand(ops, value, path, moves_left, (i - 1) as nat);
        if front.1 is Some {
            front
        } else {
            match apply_spec(value, ops[i - 1]) {
                Err(e) => (front.0, Some(e)),
                Ok(v) => {
                    let sub = visit(ops, v, extend(path, ops[i - 1], v), moves_left);
                    (front.0 + sub.0, sub.1)
                },
            }
        }
    }
}

/// Every path that the search over `p` visits, in order, and the failure
/// that ends it early, if any.
pub open spec fn explore(p: ProblemDefinition) -> (Seq<Seq<Step>>, Option<OpError>) {
    visit(p.ops@, p.start, Seq::empty(), p.moves as nat)
}

/// The visited paths of `trace` that end on `goal`.
pub open spec fn hits(trace: Seq<Seq<Step>>, start: i32, goal: i32) -> Seq<Seq<Step>> {
    trace.filter(|path: Seq<Step>| end_value(start, path) == goal)
}

/// The paths that the search over `p` reports, in order: also those found
/// before a failure.
pub open spec fn solutions(p: ProblemDefinition) -> Seq<Seq<Step>> {
    hits(explore(p).0, p.start, p.goal)
}

/// The first failure of the search over `p`, in traversal order.
pub open spec fn failure(p: ProblemDefinition) -> Option<OpError> {
    explore(p).1
}

/// The paths of a sequence of solutions.
pub open spec fn paths_of(sols: Seq<Solution>) -> Seq<Seq<Step>> {
    sols.map_values(|s: Solution| s.path@)
}

/// Every solution of `sols` records `start` and `goal`.
pub open spec fn all_for(sols: Seq<Solution>, start: i32, goal: i32) -> bool {
    forall|i: int| 0 <= i < sols.len() ==> (#[trigger] sols[i]).start == start && sols[i].goal == goal
}

/// The state reached from `state` by applying `op`.
pub fn generate_next_state(state: &SearchState, op: &Op) -> (r: Result<SearchState, OpError>)
    ensures
        match apply_spec(state.value, *op) {
            Ok(v) => r matches Ok(next) && next.value == v && next.path@ == extend(
                state.path@,
                *op,
                v,
            ),
            Err(e) => r == Err::<SearchState, OpError>(e),
        },
{
    let value = match apply_op(state.value, op) {
        Ok(v) => v,
        Err(e) => return Err(e),
    };
    let mut path = state.path.clone();
    assert(path@ =~= state.path@);
    path.push(Step { op: *op, value });
    Ok(SearchState { value, path })
}

/// A failure among the first `i` children stays the result for every later `j`.
pub proof fn lemma_expand_err_persists(
    ops: Seq<Op>,
    value: i32,
    path: Seq<Step>,
    moves_left: nat,
    i: nat,
    j: nat,
)
    requires
        i <= j,
        expand(ops, value, path, moves_left, i).1 is Some,
    ensures
        expand(ops, value, path, moves_left, j) == expand(ops, value, path, moves_left, i),
    decreases j,
{
    reveal(visit);
    reveal(expand);
    if i < j {
        lemma_expand_err_persists(ops, value, path, moves_left, i, (j - 1) as nat);
    }
}

/// Once a failure has occurred among the first `i` children, the visit of
/// the node ends with what was visited up to it, and with that failure.
pub proof fn lemma_visit_stops(ops: Seq<Op>, value: i32, path: Seq<Step>, moves_left: nat, i: nat)
    requires
        moves_left > 0,
        i <= ops.len(),
        expand(ops, value, path, (moves_left - 1) as nat, i).1 is Some,
    ensures
        visit(ops, value, path, moves_left) == (
            seq![path] + expand(ops, value, path, (moves_left - 1) as nat, i).0,
            expand(ops, value, path, (moves_left - 1) as nat, i).1,
        ),
{
    lemma_expand_err_persists(ops, value, path, (moves_left - 1) as nat, i, ops.len());
    reveal(visit);
    reveal(expand);
    let below = expand(ops, value, path, (moves_left - 1) as nat, ops.len());
    assert(visit(ops, value, path, moves_left).1 == below.1);
    assert(visit(ops, value, path, moves_left).0 == seq![path] + below.0);
}

/// Searches the subtree under `state`, appending the goal hits to `out`,
/// also those found before a failure, and returns the first failure.
fn search_from(
    p: &ProblemDefinition,
    state: &SearchState,
    moves_left: u32,
    out: &mut Vec<Solution>,
) -> (r: Option<OpError>)
    requires
        state.value == end_value(p.start, state.path@),
        all_for(old(out)@, p.start, p.goal),
    ensures
        r == visit(p.ops@, state.value, state.path@, moves_left as nat).1,
        paths_of(final(out)@) == paths_of(old(out)@) + hits(
            visit(p.ops@, state.value, state.path@, moves_left as nat).0,
            p.start,
            p.goal,
        ),
        all_for(final(out)@, p.start, p.goal),
    decreases moves_left,
{
    let ghost out0 = out@;
    let ghost here = seq![state.path@];
    let ghost pred = |path: Seq<Step>| end_value(p.start, path) == p.goal;
    if state.value == p.goal {
        out.push(Solution { start: p.start, goal: p.goal, path: state.path.clone() });
    }
    assert(paths_of(out@) =~= paths_of(out0) + hits(here, p.start, p.goal)) by {
        reveal_with_fuel(Seq::filter, 2);
    }
    if moves_left == 0 {
        assert(visit(p.ops@, state.value, state.path@, 0) == (here, None::<OpError>)) by {
            reveal(visit);
            reveal(expand);
        }
        return None;
    }
    let ghost m = (moves_left - 1) as nat;
    let n = p.ops.len();
    let mut i: usize = 0;
    assert(expand(p.ops@, state.value, state.path@, m, 0) == (Seq::<Seq<Step>>::empty(), None::<OpError>)) by {
        reveal(visit);
        reveal(expand);
    }
    assert(here + Seq::<Seq<Step>>::empty() =~= here);
    while i < n
        invariant
            i <= n,
            n == p.ops@.len(),
            0 < moves_left,
            m == moves_left - 1,
            here == seq![state.path@],
            out0 == old(out)@,
            state.value == end_value(p.start, state.path@),
            all_for(out@, p.start, p.goal),
            expand(p.ops@, state.value, state.path@, m, i as nat).1 is None,
            paths_of(out@) == paths_of(out0) + hits(
                here + expand(p.ops@, state.value, state.path@, m, i as nat).0,
                p.start,
                p.goal,
            ),
        decreases n - i,
    {
        let ghost front = expand(p.ops@, state.value, state.path@, m, i as nat).0;
        let op = &p.ops[i];
        assert(*op == p.ops@[i as int]);
        let child = match generate_next_state(state, op) {
            Ok(c) => c,
            Err(e) => {
                proof {
                    assert(expand(p.ops@, state.value, state.path@, m, i as nat + 1) == (
                        front,
                        Some(e),
                    )) by {
                        reveal(visit);
                        reveal(expand);
                    }
                    lemma_visit_stops(p.ops@, state.value, state.path@, moves_left as nat, i as nat + 1);
                    assert(visit(p.ops@, state.value, state.path@, moves_left as nat).0 == here + front);
                    assert(paths_of(out@) == paths_of(out0) + hits(here + front, p.start, p.goal));
                }
                return Some(e);
            },
        };
        let result = search_from(p, &child, moves_left - 1, out);
        proof {
            let sub = visit(p.ops@, child.value, child.path@, m).0;
            assert(expand(p.ops@, state.value, state.path@, m, i as nat + 1) == (
                front + sub,
                result,
            )) by {
                reveal(visit);
                reveal(expand);
            }
            Seq::filter_distributes_over_add(here + front, sub, pred);
            assert(here + front + sub =~= here + (front + sub));
            assert(paths_of(out@) =~= paths_of(out0) + hits(here + (front + sub), p.start, p.goal));
        }
        if result.is_some() {
            proof {
                lemma_visit_stops(p.ops@, state.value, state.path@, moves_left as nat, i as nat + 1);
                assert(visit(p.ops@, state.value, state.path@, moves_left as nat).0 == here + (front
                    + visit(p.ops@, child.value, child.path@, m).0));
            }
            return result;
        }
        i = i + 1;
    }
    assert(visit(p.ops@, state.value, state.path@, moves_left as nat) == (
        here + expand(p.ops@, state.value, state.path@, m, n as nat).0,
        expand(p.ops@, state.value, state.path@, m, n as nat).1,
    )) by {
        reveal(visit);
        reveal(expand);
    }
    None
}

/// What a search reports: every solution found, in traversal order, and the
/// failure that aborted the search, if one did. Solutions found before the
/// failure are kept; branches after it are not explored.
#[derive(Clone, Debug)]
pub struct SearchOutcome {
    pub solutions: Vec<Solution>,
    pub error: Option<OpError>,
}

/// Runs the search over `p`: every visited path that ends on the goal, in
/// traversal order, up to the first failing operation, and that failure.
pub fn search(p: &ProblemDefinition) -> (r: SearchOutcome)
    ensures
        paths_of(r.solutions@) == solutions(*p),
        all_for(r.solutions@, p.start, p.goal),
        r.error == failure(*p),
{
    let root = SearchState { value: p.start, path: Vec::new() };
    let mut out: Vec<Solution> = Vec::new();
    assert(paths_of(out@) =~= Seq::<Seq<Step>>::empty());
    let error = search_from(p, &root, p.moves, &mut out);
    assert(paths_of(out@) =~= solutions(*p));
    SearchOutcome { solutions: out, error }
}

} // verus!
