//! What holds of every search: facts about the traversal and its results.

use vstd::prelude::*;

use crate::decimal::{decimal_of, literal_value, lemma_nat_digits, lemma_parse_decimal_of, lemma_replace_absent, nat_digits, occurs_in};
use crate::op::{apply_spec, power, Op, OpError};
use crate::search::{
    end_value, expand, explore, extend, failure, hits, lemma_expand_err_persists, lemma_visit_stops, solutions, visit,
    ProblemDefinition, Step,
};

verus! {

/// The result of applying the operations of `path`, in order, to `start`,
/// ignoring the values that the path records.
pub open spec fn replay(start: i32, path: Seq<Step>) -> Result<i32, OpError>
    decreases path.len(),
{
    if path.len() == 0 {
        Ok(start)
    } else {
        match replay(start, path.drop_last()) {
            Ok(v) => apply_spec(v, path.last().op),
            Err(e) => Err(e),
        }
    }
}

/// Every prefix of `path` replays from `start` to the value it records last.
pub open spec fn faithful(start: i32, path: Seq<Step>) -> bool {
    forall|j: int|
        0 <= j <= path.len() ==> replay(start, #[trigger] path.subrange(0, j)) == Ok::<i32, OpError>(
            end_value(start, path.subrange(0, j)),
        )
}

/// `k + k^2 + ... + k^m`: the number of non-empty operation sequences of
/// length at most `m` over a catalog of `k` operations.
pub open spec fn branch_count(k: nat, m: nat) -> int
    decreases m,
{
    if m == 0 {
        0
    } else {
        branch_count(k, (m - 1) as nat) + power(k as int, m)
    }
}

proof fn lemma_extend_faithful(start: i32, path: Seq<Step>, op: Op, v: i32)
    requires
        faithful(start, path),
        apply_spec(end_value(start, path), op) == Ok::<i32, OpError>(v),
    ensures
        faithful(start, extend(path, op, v)),
{
    let ext = extend(path, op, v);
    assert forall|j: int| 0 <= j <= ext.len() implies replay(start, #[trigger] ext.subrange(0, j))
        == Ok::<i32, OpError>(end_value(start, ext.subrange(0, j))) by {
        if j <= path.len() {
            assert(ext.subrange(0, j) =~= path.subrange(0, j));
        } else {
            assert(ext.subrange(0, j) =~= ext);
            assert(ext.drop_last() =~= path);
            assert(path.subrange(0, path.len() as int) =~= path);
        }
    }
}

proof fn lemma_visit_faithful(ops: Seq<Op>, start: i32, value: i32, path: Seq<Step>, m: nat)
    requires
        faithful(start, path),
        value == end_value(start, path),
    ensures
        forall|k: int|
            0 <= k < visit(ops, value, path, m).0.len() ==> faithful(
                start,
                #[trigger] visit(ops, value, path, m).0[k],
            ) && visit(ops, value, path, m).0[k].len() <= path.len() + m,
    decreases m, 0nat,
{
    reveal(visit);
    reveal(expand);
    if m > 0 {
        lemma_expand_faithful(ops, start, value, path, (m - 1) as nat, ops.len());
        let below = expand(ops, value, path, (m - 1) as nat, ops.len()).0;
        let t = visit(ops, value, path, m).0;
        assert(path.subrange(0, path.len() as int) =~= path);
        assert forall|k: int| 0 <= k < t.len() implies faithful(start, #[trigger] t[k]) && t[k].len()
            <= path.len() + m by {
            if k > 0 {
                assert(t[k] == below[k - 1]);
            }
        }
    }
}

proof fn lemma_expand_faithful(
    ops: Seq<Op>,
    start: i32,
    value: i32,
    path: Seq<Step>,
    m: nat,
    i: nat,
)
    requires
        faithful(start, path),
        value == end_value(start, path),
        i <= ops.len(),
    ensures
        forall|k: int|
            0 <= k < expand(ops, value, path, m, i).0.len() ==> faithful(
                start,
                #[trigger] expand(ops, value, path, m, i).0[k],
            ) && expand(ops, value, path, m, i).0[k].len() <= path.len() + 1 + m,
    decreases m, i + 1,
{
    reveal(visit);
    reveal(expand);
    if i > 0 {
        let op = ops[i - 1];
        lemma_expand_faithful(ops, start, value, path, m, (i - 1) as nat);
        if expand(ops, value, path, m, (i - 1) as nat).1 is None && apply_spec(value, op) is Ok {
        let v = apply_spec(value, op)->Ok_0;
        lemma_extend_faithful(start, path, op, v);
        lemma_visit_faithful(ops, start, v, extend(path, op, v), m);
        let front = expand(ops, value, path, m, (i - 1) as nat).0;
        let sub = visit(ops, v, extend(path, op, v), m).0;
        assert forall|k: int| 0 <= k < (front + sub).len() implies faithful(
            start,
            #[trigger] (front + sub)[k],
        ) && (front + sub)[k].len() <= path.len() + 1 + m by {
            if k >= front.len() {
                assert((front + sub)[k] == sub[k - front.len()]);
            }
        }
        }
    }
}

proof fn lemma_filter_keeps(t: Seq<Seq<Step>>, pred: spec_fn(Seq<Step>) -> bool, start: i32, bound: int)
    requires
        forall|k: int| 0 <= k < t.len() ==> faithful(start, #[trigger] t[k]) && t[k].len() <= bound,
    ensures
        forall|k: int|
            0 <= k < t.filter(pred).len() ==> faithful(start, #[trigger] t.filter(pred)[k])
                && t.filter(pred)[k].len() <= bound,
    decreases t.len(),
{
    reveal(Seq::filter);
    if t.len() > 0 {
        let u = t.drop_last();
        assert forall|k: int| 0 <= k < u.len() implies faithful(start, #[trigger] u[k]) && u[k].len()
            <= bound by {
            assert(u[k] == t[k]);
        }
        lemma_filter_keeps(u, pred, start, bound);
        assert(t.last() == t[t.len() - 1]);
        let f = t.filter(pred);
        let fu = u.filter(pred);
        assert(f == if pred(t.last()) {
            fu.push(t.last())
        } else {
            fu
        });
        assert forall|k: int| 0 <= k < f.len() implies faithful(start, #[trigger] f[k]) && f[k].len()
            <= bound by {
            if k < fu.len() {
                assert(f[k] == fu[k]);
            } else {
                assert(f[k] == t.last());
            }
        }
    }
}

/// With no moves to make, the search reports the empty path when the start
/// already is the goal, and nothing otherwise.
pub proof fn lemma_no_moves(p: ProblemDefinition)
    requires
        p.moves == 0,
    ensures
        solutions(p) == if p.start == p.goal {
            seq![Seq::<Step>::empty()]
        } else {
            Seq::empty()
        },
        failure(p) is None,
{
    reveal(visit);
    reveal(expand);
    reveal_with_fuel(Seq::filter, 2);
    let t = explore(p).0;
    assert(t =~= seq![Seq::<Step>::empty()]);
    if p.start == p.goal {
        assert(hits(t, p.start, p.goal) =~= seq![Seq::<Step>::empty()]);
    } else {
        assert(hits(t, p.start, p.goal) =~= Seq::<Seq<Step>>::empty());
    }
}

/// Applying the operations of a reported path, in order, to the start gives
/// the goal; every value that the path records is what its prefix gives; and
/// the path is no longer than the move budget. This holds also of the
/// solutions found before a failure.
pub proof fn lemma_solutions_replay(p: ProblemDefinition, k: int)
    requires
        0 <= k < solutions(p).len(),
    ensures
        replay(p.start, solutions(p)[k]) == Ok::<i32, OpError>(p.goal),
        faithful(p.start, solutions(p)[k]),
        solutions(p)[k].len() <= p.moves,
{
    let root = Seq::<Step>::empty();
    assert(faithful(p.start, root)) by {
        assert forall|j: int| 0 <= j <= root.len() implies replay(
            p.start,
            #[trigger] root.subrange(0, j),
        ) == Ok::<i32, OpError>(end_value(p.start, root.subrange(0, j))) by {
            assert(root.subrange(0, j) =~= root);
        }
    }
    lemma_visit_faithful(p.ops@, p.start, p.start, root, p.moves as nat);
    let t = explore(p).0;
    let pred = |path: Seq<Step>| end_value(p.start, path) == p.goal;
    lemma_filter_keeps(t, pred, p.start, p.moves as int);
    let path = solutions(p)[k];
    t.lemma_filter_pred(pred, k);
    assert(pred(path));
    assert(path.subrange(0, path.len() as int) =~= path);
}

/// The search's result depends on the problem's values alone: two problems
/// with the same start, goal, budget and catalog give the same visits and
/// the same solutions, in the same order.
pub proof fn lemma_deterministic(p: ProblemDefinition, q: ProblemDefinition)
    requires
        p.start == q.start,
        p.goal == q.goal,
        p.moves == q.moves,
        p.ops@ == q.ops@,
    ensures
        explore(p) == explore(q),
        solutions(p) == solutions(q),
        failure(p) == failure(q),
{
}

proof fn lemma_branch_count_step(k: nat, m: nat)
    requires
        m >= 1,
    ensures
        branch_count(k, m) == k + k * branch_count(k, (m - 1) as nat),
    decreases m,
{
    if m == 1 {
        assert(power(k as int, 1) == k * power(k as int, 0));
    } else {
        let m1 = (m - 1) as nat;
        let m2 = (m - 2) as nat;
        lemma_branch_count_step(k, m1);
        let b2 = branch_count(k, m2);
        let p1 = power(k as int, m1);
        assert(power(k as int, m) == k * p1);
        assert(k + k * b2 + k * p1 == k + k * (b2 + p1)) by (nonlinear_arith);
    }
}

proof fn lemma_visit_count(ops: Seq<Op>, value: i32, path: Seq<Step>, m: nat)
    requires
        visit(ops, value, path, m).1 is None,
    ensures
        visit(ops, value, path, m).0.len() == 1 + branch_count(ops.len(), m),
    decreases m, 0nat,
{
    reveal(visit);
    reveal(expand);
    if m > 0 {
        let k = ops.len();
        let b = branch_count(k, (m - 1) as nat);
        lemma_expand_count(ops, value, path, (m - 1) as nat, k);
        lemma_branch_count_step(k, m);
        assert(k * (1 + b) == k + k * b) by (nonlinear_arith);
    }
}

proof fn lemma_expand_count(ops: Seq<Op>, value: i32, path: Seq<Step>, m: nat, i: nat)
    requires
        expand(ops, value, path, m, i).1 is None,
        i <= ops.len(),
    ensures
        expand(ops, value, path, m, i).0.len() == i * (1 + branch_count(ops.len(), m)),
    decreases m, i + 1,
{
    reveal(visit);
    reveal(expand);
    if i > 0 {
        let op = ops[i - 1];
        lemma_expand_count(ops, value, path, m, (i - 1) as nat);
        let v = apply_spec(value, op)->Ok_0;
        lemma_visit_count(ops, v, extend(path, op, v), m);
        let c = 1 + branch_count(ops.len(), m);
        assert((i - 1) * c + c == i * c) by (nonlinear_arith);
    }
}

/// When no operation fails, the search visits the root and then exactly
/// `k + k^2 + ... + k^m` branches, for a catalog of `k` operations and a
/// budget of `m` moves.
pub proof fn lemma_exhaustive(p: ProblemDefinition)
    requires
        failure(p) is None,
    ensures
        explore(p).0.len() - 1 == branch_count(p.ops@.len(), p.moves as nat),
{
    lemma_visit_count(p.ops@, p.start, Seq::empty(), p.moves as nat);
}

/// A `Divide(0)` in the catalog, with at least one move, makes the search
/// fail. Unless something fails in the branches explored before it (those
/// of the catalog's earlier operations), the failure is `DivideByZero`, the
/// solutions reported are the goal hits among the root and those earlier
/// branches, and no later branch is explored.
pub proof fn lemma_divide_by_zero_aborts(p: ProblemDefinition, idx: int)
    requires
        p.moves >= 1,
        0 <= idx < p.ops@.len(),
        p.ops@[idx] == Op::Divide(0),
    ensures
        failure(p) is Some,
        expand(p.ops@, p.start, Seq::empty(), (p.moves - 1) as nat, idx as nat).1 is None ==> {
            &&& failure(p) == Some(OpError::DivideByZero)
            &&& explore(p).0 == seq![Seq::<Step>::empty()] + expand(
                p.ops@,
                p.start,
                Seq::empty(),
                (p.moves - 1) as nat,
                idx as nat,
            ).0
        },
{
    reveal(visit);
    reveal(expand);
    let ops = p.ops@;
    let m = (p.moves - 1) as nat;
    let root = Seq::<Step>::empty();
    let front = expand(ops, p.start, root, m, idx as nat);
    assert(expand(ops, p.start, root, m, (idx + 1) as nat).1 is Some);
    if front.1 is None {
        assert(apply_spec(p.start, ops[idx]) == Err::<i32, OpError>(OpError::DivideByZero));
        assert(expand(ops, p.start, root, m, (idx + 1) as nat) == (front.0, Some(OpError::DivideByZero)));
    }
    lemma_visit_stops(ops, p.start, root, p.moves as nat, (idx + 1) as nat);
}

/// A `Transform` whose pattern does not occur in the value's decimal text
/// leaves the value unchanged.
pub proof fn lemma_transform_absent_pattern(v: i32, from: i32, to: i32)
    requires
        !occurs_in(decimal_of(from as int), decimal_of(v as int)),
    ensures
        apply_spec(v, Op::Transform(from, to)) == Ok::<i32, OpError>(v),
{
    lemma_replace_absent(decimal_of(v as int), decimal_of(from as int), decimal_of(to as int));
    lemma_parse_decimal_of(v);
}

/// Inserting a digit appends it to the digits of the magnitude and keeps
/// the sign: `v * 10 + d` for `v >= 0`, `v * 10 - d` for `v < 0`; a result
/// outside `i32` is an `InvalidLiteral`.
pub proof fn lemma_insert_digit(v: i32, d: i32)
    requires
        0 <= d <= 9,
    ensures
        apply_spec(v, Op::Insert(d)) == literal_value(
            if v < 0 {
                v * 10 - d
            } else {
                v * 10 + d
            },
        ),
{
    let mag: nat = if v < 0 {
        (-v) as nat
    } else {
        v as nat
    };
    lemma_nat_digits(mag);
    let digits = nat_digits(mag).push((48 + d) as u8);
    assert(decimal_of(d as int) =~= seq![(48 + d) as u8]);
    assert(digits.drop_last() =~= nat_digits(mag));
    let s = decimal_of(v as int) + decimal_of(d as int);
    if v < 0 {
        assert(s.drop_first() =~= digits);
    } else {
        assert(s =~= digits);
        assert(s[0] == nat_digits(mag)[0]);
    }
}

} // verus!
