//! The search as a sequence of small steps that the caller drives, with an
//! explicit work stack in place of recursion. The caller may stop at any
//! point; the nodes visited so far are always a prefix of the full
//! traversal, in the same order.

use vstd::prelude::*;

use crate::op::{apply_spec, Op, OpError};
use crate::search::{
    end_value, expand, explore, extend, generate_next_state, hits, visit, ProblemDefinition,
    SearchState, Solution, Step,
};

verus! {

/// Visited paths and the failure that ended the visit, if any.
pub type Trace = (Seq<Seq<Step>>, Option<OpError>);

/// `a` followed by `b`, unless `a` ended in a failure.
pub open spec fn then(a: Trace, b: Trace) -> Trace {
    if a.1 is Some {
        a
    } else {
        (a.0 + b.0, b.1)
    }
}

/// What trying the operation at index `i` from the node (`value`, `path`)
/// visits, each child having `moves` moves to go.
pub open spec fn child_part(ops: Seq<Op>, value: i32, path: Seq<Step>, moves: nat, i: int) -> Trace {
    match apply_spec(value, ops[i]) {
        Err(e) => (Seq::empty(), Some(e)),
        Ok(v) => visit(ops, v, extend(path, ops[i], v), moves),
    }
}

/// What the operations from index `i` on visit below the node.
pub open spec fn pending(ops: Seq<Op>, value: i32, path: Seq<Step>, moves: nat, i: nat) -> Trace
    decreases ops.len() - i,
{
    if i >= ops.len() {
        (Seq::empty(), None)
    } else {
        then(child_part(ops, value, path, moves, i as int), pending(ops, value, path, moves, i + 1))
    }
}

/// A node whose children from index `next` on are still to be tried; each
/// child has `moves` moves to go.
#[derive(Clone, Debug)]
pub struct Frame {
    pub state: SearchState,
    pub next: usize,
    pub moves: u32,
}

pub open spec fn frame_rest(ops: Seq<Op>, f: Frame) -> Trace {
    pending(ops, f.state.value, f.state.path@, f.moves as nat, f.next as nat)
}

/// What the frames still have to visit, the top of the stack first.
pub open spec fn stack_rest(ops: Seq<Op>, frames: Seq<Frame>) -> Trace
    decreases frames.len(),
{
    if frames.len() == 0 {
        (Seq::empty(), None)
    } else {
        then(frame_rest(ops, frames.last()), stack_rest(ops, frames.drop_last()))
    }
}

/// A search in progress.
pub struct Searcher {
    pub problem: ProblemDefinition,
    pub started: bool,
    pub stack: Vec<Frame>,
    pub error: Option<OpError>,
    /// The paths visited so far, in order.
    pub seen: Ghost<Seq<Seq<Step>>>,
}

impl Searcher {
    /// What is still to be visited.
    pub open spec fn rest(&self) -> Trace {
        if self.started {
            stack_rest(self.problem.ops@, self.stack@)
        } else {
            explore(self.problem)
        }
    }

    /// What has been visited so far, followed by what is still to come, is
    /// the whole traversal.
    pub open spec fn wf(&self) -> bool {
        &&& then((self.seen@, self.error), self.rest()) == explore(self.problem)
        &&& self.error is Some ==> self.started && self.stack@.len() == 0
        &&& !self.started ==> self.seen@.len() == 0 && self.error is None && self.stack@.len() == 0
        &&& forall|k: int|
            0 <= k < self.stack@.len() ==> (#[trigger] self.stack@[k]).state.value == end_value(
                self.problem.start,
                self.stack@[k].state.path@,
            ) && self.stack@[k].next <= self.problem.ops@.len()
    }

    /// Whether the search has nothing left to do.
    pub open spec fn finished(&self) -> bool {
        self.started && (self.error is Some || self.stack@.len() == 0)
    }
}

pub open spec fn as_paths(r: Option<Solution>) -> Seq<Seq<Step>> {
    match r {
        Some(s) => seq![s.path@],
        None => Seq::empty(),
    }
}

proof fn lemma_then_assoc(a: Trace, b: Trace, c: Trace)
    ensures
        then(then(a, b), c) == then(a, then(b, c)),
{
    if a.1 is None && b.1 is None {
        assert(a.0 + b.0 + c.0 =~= a.0 + (b.0 + c.0));
    }
}

proof fn lemma_then_empty(a: Trace)
    ensures
        then(a, (Seq::empty(), None)) == a,
        then((Seq::empty(), None), a) == a,
{
    assert(a.0 + Seq::<Seq<Step>>::empty() =~= a.0);
    assert(Seq::<Seq<Step>>::empty() + a.0 =~= a.0);
}

proof fn lemma_pending_completes(ops: Seq<Op>, value: i32, path: Seq<Step>, m: nat, i: nat)
    requires
        i <= ops.len(),
    ensures
        then(expand(ops, value, path, m, i), pending(ops, value, path, m, i)) == expand(
            ops,
            value,
            path,
            m,
            ops.len(),
        ),
    decreases ops.len() - i,
{
    if i >= ops.len() {
        lemma_then_empty(expand(ops, value, path, m, i));
    } else {
        let front = expand(ops, value, path, m, i);
        let cp = child_part(ops, value, path, m, i as int);
        assert(expand(ops, value, path, m, i + 1) == then(front, cp)) by {
            reveal(visit);
            reveal(expand);
            assert(front.0 + Seq::<Seq<Step>>::empty() =~= front.0);
        }
        lemma_then_assoc(front, cp, pending(ops, value, path, m, i + 1));
        lemma_pending_completes(ops, value, path, m, i + 1);
    }
}

/// The visit of a node is the node, then what its children visit.
proof fn lemma_visit_split(ops: Seq<Op>, value: i32, path: Seq<Step>, m: nat)
    ensures
        visit(ops, value, path, m) == then(
            (seq![path], None),
            if m == 0 {
                (Seq::empty(), None)
            } else {
                pending(ops, value, path, (m - 1) as nat, 0)
            },
        ),
{
    reveal(visit);
    reveal(expand);
    if m == 0 {
        lemma_then_empty((seq![path], None));
    } else {
        lemma_pending_completes(ops, value, path, (m - 1) as nat, 0);
        lemma_then_empty(pending(ops, value, path, (m - 1) as nat, 0));
    }
}

proof fn lemma_stack_push(ops: Seq<Op>, frames: Seq<Frame>, f: Frame)
    ensures
        stack_rest(ops, frames.push(f)) == then(frame_rest(ops, f), stack_rest(ops, frames)),
{
    assert(frames.push(f).drop_last() =~= frames);
}

proof fn lemma_hits_push(seen: Seq<Seq<Step>>, path: Seq<Step>, start: i32, goal: i32)
    ensures
        hits(seen.push(path), start, goal) == hits(seen, start, goal) + if end_value(start, path)
            == goal {
            seq![path]
        } else {
            Seq::empty()
        },
{
    let pred = |q: Seq<Step>| end_value(start, q) == goal;
    Seq::filter_distributes_over_add(seen, seq![path], pred);
    assert(seen.push(path) =~= seen + seq![path]);
    reveal_with_fuel(Seq::filter, 2);
    assert(seq![path].drop_last() =~= Seq::<Seq<Step>>::empty());
}

impl Searcher {
    /// A search over `problem` that has visited nothing yet.
    pub fn new(problem: ProblemDefinition) -> (r: Searcher)
        ensures
            r.wf(),
            r.problem == problem,
            r.seen@ == Seq::<Seq<Step>>::empty(),
            !r.finished(),
    {
        let r = Searcher {
            problem,
            started: false,
            stack: Vec::new(),
            error: None,
            seen: Ghost(Seq::empty()),
        };
        proof {
            lemma_then_empty(explore(r.problem));
        }
        r
    }

    /// Whether the search is over. Then the paths visited are the whole
    /// traversal and `error` is its failure, if any.
    pub fn is_finished(&self) -> (r: bool)
        requires
            self.wf(),
        ensures
            r == self.finished(),
            r ==> (self.seen@, self.error) == explore(self.problem),
    {
        let r = self.started && (self.error.is_some() || self.stack.len() == 0);
        proof {
            if r && self.error is None {
                lemma_then_empty((self.seen@, self.error));
            }
        }
        r
    }

    fn start(&mut self) -> (r: Option<Solution>)
        requires
            old(self).wf(),
            !old(self).started,
        ensures
            final(self).wf(),
            final(self).problem == old(self).problem,
            hits(final(self).seen@, final(self).problem.start, final(self).problem.goal) == hits(
                old(self).seen@,
                old(self).problem.start,
                old(self).problem.goal,
            ) + as_paths(r),
            r matches Some(s) ==> s.start == old(self).problem.start && s.goal
                == old(self).problem.goal,
    {
        let ghost ops = self.problem.ops@;
        let ghost start = self.problem.start;
        let ghost goal = self.problem.goal;
        let root = SearchState { value: self.problem.start, path: Vec::new() };
        let moves = self.problem.moves;
        proof {
            lemma_visit_split(ops, start, root.path@, moves as nat);
            lemma_hits_push(self.seen@, root.path@, start, goal);
            lemma_then_empty((self.seen@, self.error));
            assert(self.seen@.push(root.path@) =~= seq![root.path@]);
        }
        self.started = true;
        self.seen = Ghost(self.seen@.push(root.path@));
        let hit = root.value == self.problem.goal;
        let sol = if hit {
            Some(Solution { start: self.problem.start, goal: self.problem.goal, path: root.path.clone() })
        } else {
            None
        };
        let ghost deeper: Trace = if moves == 0 {
            (Seq::empty(), None)
        } else {
            pending(ops, start, root.path@, (moves - 1) as nat, 0)
        };
        if moves > 0 {
            let f = Frame { state: root, next: 0, moves: moves - 1 };
            proof {
                assert(self.stack@ =~= Seq::<Frame>::empty());
                lemma_stack_push(ops, Seq::empty(), f);
                lemma_then_empty(frame_rest(ops, f));
            }
            self.stack.push(f);
        }
        proof {
            assert(self.rest() == deeper);
            assert(self.seen@ == seq![root.path@]);
        }
        sol
    }

    fn step_frame(&mut self) -> (r: Option<Solution>)
        requires
            old(self).wf(),
            old(self).started,
            old(self).error is None,
            old(self).stack@.len() > 0,
        ensures
            final(self).wf(),
            final(self).problem == old(self).problem,
            hits(final(self).seen@, final(self).problem.start, final(self).problem.goal) == hits(
                old(self).seen@,
                old(self).problem.start,
                old(self).problem.goal,
            ) + as_paths(r),
            r matches Some(s) ==> s.start == old(self).problem.start && s.goal
                == old(self).problem.goal,
    {
        let ghost ops = self.problem.ops@;
        let ghost start = self.problem.start;
        let ghost goal = self.problem.goal;
        let mut f = self.stack.pop().unwrap();
        let ghost below = self.stack@;
        proof {
            lemma_stack_push(ops, below, f);
        }
        if f.next >= self.problem.ops.len() {
            proof {
                lemma_then_empty(stack_rest(ops, below));
            }
            return None;
        }
        let i = f.next;
        let op = self.problem.ops[i];
        let ghost after = pending(ops, f.state.value, f.state.path@, f.moves as nat, i as nat + 1);
        match generate_next_state(&f.state, &op) {
            Err(e) => {
                self.error = Some(e);
                self.stack.clear();
                proof {
                    let cp = child_part(ops, f.state.value, f.state.path@, f.moves as nat, i as int);
                    assert(cp == (Seq::<Seq<Step>>::empty(), Some(e)));
                    assert(self.seen@ + Seq::<Seq<Step>>::empty() =~= self.seen@);
                    lemma_hits_push(self.seen@, Seq::empty(), start, goal);
                    assert(as_paths(None) =~= Seq::<Seq<Step>>::empty());
                    assert(hits(self.seen@, start, goal) + Seq::<Seq<Step>>::empty() =~= hits(self.seen@, start, goal));
                }
                None
            },
            Ok(child) => {
                let ghost cpath = child.path@;
                proof {
                    lemma_visit_split(ops, child.value, cpath, f.moves as nat);
                    lemma_hits_push(self.seen@, cpath, start, goal);
                }
                let sol = if child.value == self.problem.goal {
                    Some(Solution { start: self.problem.start, goal: self.problem.goal, path: child.path.clone() })
                } else {
                    None
                };
                let child_moves = f.moves;
                f.next = i + 1;
                let ghost deeper: Trace = if child_moves == 0 {
                    (Seq::empty(), None)
                } else {
                    pending(ops, child.value, cpath, (child_moves - 1) as nat, 0)
                };
                let ghost old_seen = self.seen@;
                self.stack.push(f);
                proof {
                    lemma_stack_push(ops, below, f);
                }
                if child_moves > 0 {
                    let g = Frame { state: child, next: 0, moves: child_moves - 1 };
                    let ghost mid = self.stack@;
                    self.stack.push(g);
                    proof {
                        lemma_stack_push(ops, mid, g);
                    }
                } else {
                    proof {
                        lemma_then_empty(stack_rest(ops, self.stack@));
                    }
                }
                self.seen = Ghost(old_seen.push(cpath));
                proof {
                    let rest_below = stack_rest(ops, below);
                    let node: Trace = (seq![cpath], None);
                    lemma_then_assoc(then(node, deeper), after, rest_below);
                    lemma_then_assoc(node, deeper, then(after, rest_below));
                    lemma_then_assoc((old_seen, None), node, then(deeper, then(after, rest_below)));
                    assert(old_seen + seq![cpath] =~= old_seen.push(cpath));
                }
                sol
            },
        }
    }

    /// Takes one step: visits the next node of the traversal, drops a node
    /// whose children are all done, or meets a failure, which ends the
    /// search. Returns the solution when the node visited is on the goal.
    /// Once the search is over, a step changes nothing.
    pub fn advance(&mut self) -> (r: Option<Solution>)
        requires
            old(self).wf(),
        ensures
            final(self).wf(),
            final(self).problem == old(self).problem,
            hits(final(self).seen@, final(self).problem.start, final(self).problem.goal) == hits(
                old(self).seen@,
                old(self).problem.start,
                old(self).problem.goal,
            ) + as_paths(r),
            r matches Some(s) ==> s.start == old(self).problem.start && s.goal
                == old(self).problem.goal,
            old(self).finished() ==> *final(self) == *old(self),
    {
        if !self.started {
            return self.start();
        }
        if self.error.is_some() || self.stack.len() == 0 {
            return None;
        }
        self.step_frame()
    }
}

} // verus!
