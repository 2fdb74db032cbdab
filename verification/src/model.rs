//! The mathematical model of an alignment that the contracts of this crate
//! speak of: lists of runs, the single operations they stand for, the position
//! they reach, and the laws that connect these.

use crate::cigar::{CigarOp, Run};
use vstd::prelude::*;

verus! {

/// Every run holds at least one operation.
pub open spec fn valid(runs: Seq<Run>) -> bool {
    forall|i: int| 0 <= i < runs.len() ==> (#[trigger] runs[i]).1 >= 1
}

/// Every run holds at least one operation, and no two neighbours hold the
/// same operation: each run is as long as it can be.
pub open spec fn canonical(runs: Seq<Run>) -> bool {
    &&& valid(runs)
    &&& forall|i: int| 0 <= i < runs.len() - 1 ==> (#[trigger] runs[i]).0 != runs[i + 1].0
}

/// `n` times the operation `op`; nothing where `n` is not positive.
pub open spec fn repeat(op: CigarOp, n: int) -> Seq<CigarOp> {
    Seq::new(
        if n > 0 {
            n as nat
        } else {
            0
        },
        |k: int| op,
    )
}

/// The single operations that a list of runs stands for, in order.
pub open spec fn unroll(runs: Seq<Run>) -> Seq<CigarOp>
    decreases runs.len(),
{
    if runs.len() == 0 {
        Seq::empty()
    } else {
        unroll(runs.drop_last()) + repeat(runs.last().0, runs.last().1)
    }
}

/// Appends a run, merging it into the last one where both hold the same
/// operation.
pub open spec fn push_run(runs: Seq<Run>, run: Run) -> Seq<Run> {
    if runs.len() > 0 && runs.last().0 == run.0 {
        runs.drop_last().push((run.0, runs.last().1 + run.1))
    } else {
        runs.push(run)
    }
}

/// The runs of a list of single operations: neighbours that are equal are
/// counted together.
pub open spec fn group(ops: Seq<CigarOp>) -> Seq<Run>
    decreases ops.len(),
{
    if ops.len() == 0 {
        Seq::empty()
    } else {
        push_run(group(ops.drop_last()), (ops.last(), 1))
    }
}

/// The runs of a list of runs: neighbours that hold the same operation are
/// merged.
pub open spec fn coalesce(runs: Seq<Run>) -> Seq<Run>
    decreases runs.len(),
{
    if runs.len() == 0 {
        Seq::empty()
    } else {
        push_run(coalesce(runs.drop_last()), runs.last())
    }
}

/// The position reached from the start by a list of single operations.
pub open spec fn walk(ops: Seq<CigarOp>) -> (int, int)
    decreases ops.len(),
{
    if ops.len() == 0 {
        (0, 0)
    } else {
        let p = walk(ops.drop_last());
        let d = ops.last().spec_delta();
        (p.0 + d.0, p.1 + d.1)
    }
}

/// The position reached from the start by a list of runs.
pub open spec fn span(runs: Seq<Run>) -> (int, int) {
    walk(unroll(runs))
}

/// Whether a position can be held in machine integers.
pub open spec fn point_fits(p: (int, int)) -> bool {
    p.0 <= i32::MAX && p.1 <= i32::MAX
}

/// Every count fits the machine integer that holds it.
pub open spec fn counts_fit(runs: Seq<Run>) -> bool {
    forall|i: int| 0 <= i < runs.len() ==> i32::MIN <= (#[trigger] runs[i]).1 <= i32::MAX
}

/// A run appended as it is adds its operations at the end.
pub proof fn lemma_unroll_push(runs: Seq<Run>, run: Run)
    ensures
        unroll(runs.push(run)) == unroll(runs) + repeat(run.0, run.1),
{
    assert(runs.push(run).drop_last() =~= runs);
}

/// Whether a run is merged or appended, its operations are added at the end.
pub proof fn lemma_unroll_push_run(runs: Seq<Run>, run: Run)
    requires
        valid(runs),
        run.1 >= 0,
    ensures
        unroll(push_run(runs, run)) == unroll(runs) + repeat(run.0, run.1),
{
    if runs.len() > 0 && runs.last().0 == run.0 {
        let init = runs.drop_last();
        let last = runs.last();
        lemma_unroll_push(init, (run.0, last.1 + run.1));
        assert(unroll(init) + (repeat(run.0, last.1) + repeat(run.0, run.1)) =~= (unroll(init)
            + repeat(run.0, last.1)) + repeat(run.0, run.1));
    } else {
        lemma_unroll_push(runs, run);
    }
}

/// One operation pushed, merged or not, is one operation more at the end.
pub proof fn lemma_unroll_push_op(runs: Seq<Run>, op: CigarOp)
    requires
        valid(runs),
    ensures
        unroll(push_run(runs, (op, 1))) == unroll(runs).push(op),
{
    if runs.len() > 0 && runs.last().0 == op {
        let init = runs.drop_last();
        let n = runs.last().1;
        lemma_unroll_push(init, (op, n + 1));
    } else {
        lemma_unroll_push(runs, (op, 1));
    }
}

/// Merging puts a list of valid runs into canonical form without changing
/// the operations it stands for.
pub proof fn lemma_coalesce(runs: Seq<Run>)
    requires
        valid(runs),
    ensures
        canonical(coalesce(runs)),
        unroll(coalesce(runs)) == unroll(runs),
    decreases runs.len(),
{
    if runs.len() > 0 {
        let init = runs.drop_last();
        lemma_coalesce(init);
        lemma_unroll_push_run(coalesce(init), runs.last());
    }
}

/// Merging changes nothing in a canonical list.
pub proof fn lemma_coalesce_canonical(runs: Seq<Run>)
    requires
        canonical(runs),
    ensures
        coalesce(runs) == runs,
    decreases runs.len(),
{
    if runs.len() > 0 {
        let init = runs.drop_last();
        lemma_coalesce_canonical(init);
    }
}

/// Grouping operations of which the last `n` are `op` pushes one run of `n`.
pub proof fn lemma_group_repeat(ops: Seq<CigarOp>, op: CigarOp, n: int)
    requires
        n >= 1,
    ensures
        group(ops + repeat(op, n)) == push_run(group(ops), (op, n)),
    decreases n,
{
    let all = ops + repeat(op, n);
    if n == 1 {
        assert(all.drop_last() =~= ops);
    } else {
        assert(all.drop_last() =~= ops + repeat(op, n - 1));
        lemma_group_repeat(ops, op, n - 1);
    }
}

/// The groups of a list of operations are canonical and stand for that list.
pub proof fn lemma_group(ops: Seq<CigarOp>)
    ensures
        canonical(group(ops)),
        unroll(group(ops)) == ops,
    decreases ops.len(),
{
    if ops.len() > 0 {
        let init = ops.drop_last();
        lemma_group(init);
        lemma_unroll_push_run(group(init), (ops.last(), 1));
    }
}

/// Grouping the operations of valid runs merges the runs.
pub proof fn lemma_group_unroll(runs: Seq<Run>)
    requires
        valid(runs),
    ensures
        group(unroll(runs)) == coalesce(runs),
    decreases runs.len(),
{
    if runs.len() > 0 {
        let init = runs.drop_last();
        lemma_group_unroll(init);
        lemma_group_repeat(unroll(init), runs.last().0, runs.last().1);
    }
}

/// A canonical list of runs is determined by the operations it stands for.
pub proof fn lemma_canonical_unique(x: Seq<Run>, y: Seq<Run>)
    requires
        canonical(x),
        canonical(y),
        unroll(x) == unroll(y),
    ensures
        x == y,
{
    lemma_group_unroll(x);
    lemma_group_unroll(y);
    lemma_coalesce_canonical(x);
    lemma_coalesce_canonical(y);
}

/// How many single operations the first `i` runs stand for.
pub open spec fn offset(runs: Seq<Run>, i: int) -> int {
    unroll(runs.take(i)).len() as int
}

/// The operations of the first `j` runs open the operations of all runs.
pub proof fn lemma_unroll_take(runs: Seq<Run>, j: int)
    requires
        0 <= j <= runs.len(),
    ensures
        offset(runs, j) <= unroll(runs).len(),
        unroll(runs.take(j)) == unroll(runs).take(offset(runs, j)),
    decreases runs.len(),
{
    if j == runs.len() {
        assert(runs.take(j) =~= runs);
    } else {
        let init = runs.drop_last();
        assert(runs.take(j) =~= init.take(j));
        lemma_unroll_take(init, j);
    }
}

/// The offsets start at nothing and end at the number of all operations.
pub proof fn lemma_offset_ends(runs: Seq<Run>)
    ensures
        offset(runs, 0) == 0,
        offset(runs, runs.len() as int) == unroll(runs).len(),
{
    assert(runs.take(runs.len() as int) =~= runs);
}

/// Each run adds its length to the offset, where that is positive.
pub proof fn lemma_offset_step(runs: Seq<Run>, i: int)
    requires
        0 <= i < runs.len(),
    ensures
        offset(runs, i + 1) == offset(runs, i) + repeat(runs[i].0, runs[i].1).len(),
        offset(runs, i + 1) <= unroll(runs).len(),
{
    assert(runs.take(i + 1).drop_last() =~= runs.take(i));
    lemma_unroll_take(runs, i + 1);
}

/// The `k`-th operation of the `i`-th run stands at the run's offset plus `k`.
pub proof fn lemma_unroll_index(runs: Seq<Run>, i: int, k: int)
    requires
        0 <= i < runs.len(),
        0 <= k < runs[i].1,
    ensures
        0 <= offset(runs, i) + k < unroll(runs).len(),
        unroll(runs)[offset(runs, i) + k] == runs[i].0,
{
    lemma_offset_step(runs, i);
    lemma_unroll_take(runs, i + 1);
    let upto = unroll(runs.take(i + 1));
    assert(upto[offset(runs, i) + k] == repeat(runs[i].0, runs[i].1)[k]);
}

/// One more operation moves the position by that operation's step.
pub proof fn lemma_walk_push(ops: Seq<CigarOp>, op: CigarOp)
    ensures
        walk(ops.push(op)).0 == walk(ops).0 + op.spec_delta().0,
        walk(ops.push(op)).1 == walk(ops).1 + op.spec_delta().1,
{
    assert(ops.push(op).drop_last() =~= ops);
}

/// Taking one more operation of a list moves the position by its step.
pub proof fn lemma_walk_take(ops: Seq<CigarOp>, n: int)
    requires
        0 <= n < ops.len(),
    ensures
        walk(ops.take(n + 1)).0 == walk(ops.take(n)).0 + ops[n].spec_delta().0,
        walk(ops.take(n + 1)).1 == walk(ops.take(n)).1 + ops[n].spec_delta().1,
{
    assert(ops.take(n + 1) =~= ops.take(n).push(ops[n]));
    lemma_walk_push(ops.take(n), ops[n]);
}

/// Along a list of operations neither coordinate ever decreases, and neither
/// grows by more than one per operation.
pub proof fn lemma_walk_monotone(ops: Seq<CigarOp>, m: int, n: int)
    requires
        0 <= m <= n <= ops.len(),
    ensures
        walk(ops.take(m)).0 <= walk(ops.take(n)).0 <= walk(ops.take(m)).0 + (n - m),
        walk(ops.take(m)).1 <= walk(ops.take(n)).1 <= walk(ops.take(m)).1 + (n - m),
    decreases n - m,
{
    if m < n {
        lemma_walk_monotone(ops, m, n - 1);
        lemma_walk_take(ops, n - 1);
    }
}

/// The positions visited by a list of operations: the start, and the position
/// after each operation.
pub open spec fn path_of(ops: Seq<CigarOp>) -> Seq<(int, int)> {
    Seq::new(ops.len() + 1, |k: int| walk(ops.take(k)))
}

/// One more operation adds the position it reaches to the path.
pub proof fn lemma_path_of_take(ops: Seq<CigarOp>, n: int)
    requires
        0 <= n < ops.len(),
    ensures
        path_of(ops.take(n + 1)) == path_of(ops.take(n)).push(walk(ops.take(n + 1))),
{
    let longer = ops.take(n + 1);
    let shorter = ops.take(n);
    assert forall|k: int| 0 <= k <= n implies #[trigger] longer.take(k) == shorter.take(k) by {}
    assert(longer.take(n + 1) =~= longer);
}

/// The position `k` operations of `op` after `p`.
pub open spec fn advance(p: (int, int), op: CigarOp, k: int) -> (int, int) {
    (p.0 + k * op.spec_delta().0, p.1 + k * op.spec_delta().1)
}

/// A run of matches or substitutions advances both coordinates by its
/// length, a deletion the first only, and an insertion the second only.
pub proof fn lemma_advance(p: (int, int), op: CigarOp, k: int)
    ensures
        advance(p, op, k) == match op {
            CigarOp::Match => (p.0 + k, p.1 + k),
            CigarOp::Sub => (p.0 + k, p.1 + k),
            CigarOp::Del => (p.0 + k, p.1),
            CigarOp::Ins => (p.0, p.1 + k),
        },
{
}

/// A run of `n` operations advances the position `n` times by its step.
pub proof fn lemma_walk_repeat(ops: Seq<CigarOp>, op: CigarOp, n: int)
    requires
        n >= 0,
    ensures
        walk(ops + repeat(op, n)) == advance(walk(ops), op, n),
    decreases n,
{
    if n > 0 {
        lemma_walk_repeat(ops, op, n - 1);
        assert(ops + repeat(op, n) =~= (ops + repeat(op, n - 1)).push(op));
        lemma_walk_push(ops + repeat(op, n - 1), op);
        let d = op.spec_delta();
        assert((n - 1) * d.0 + d.0 == n * d.0) by (nonlinear_arith);
        assert((n - 1) * d.1 + d.1 == n * d.1) by (nonlinear_arith);
    }
}

/// The `i`-th run advances the position reached by the runs before it.
pub proof fn lemma_span_step(runs: Seq<Run>, i: int)
    requires
        0 <= i < runs.len(),
        runs[i].1 >= 0,
    ensures
        span(runs.take(i + 1)) == advance(span(runs.take(i)), runs[i].0, runs[i].1),
{
    assert(runs.take(i + 1).drop_last() =~= runs.take(i));
    lemma_walk_repeat(unroll(runs.take(i)), runs[i].0, runs[i].1);
}

/// The position reached by the first `j` runs is the position after as many
/// operations as these runs stand for, and is not beyond the end.
pub proof fn lemma_span_take(runs: Seq<Run>, j: int)
    requires
        0 <= j <= runs.len(),
    ensures
        span(runs.take(j)) == walk(unroll(runs).take(offset(runs, j))),
        0 <= span(runs.take(j)).0 <= span(runs).0,
        0 <= span(runs.take(j)).1 <= span(runs).1,
{
    lemma_unroll_take(runs, j);
    let all = unroll(runs);
    lemma_walk_monotone(all, offset(runs, j), all.len() as int);
    lemma_walk_monotone(all, 0, offset(runs, j));
    assert(all.take(all.len() as int) =~= all);
}

/// Whether `x` may yet become `y` by pushing runs: `y` agrees with `x` up to
/// the last run of `x`, which in `y` holds the same operation and is no
/// shorter.
pub open spec fn grows_to(x: Seq<Run>, y: Seq<Run>) -> bool {
    &&& x.len() <= y.len()
    &&& forall|j: int| 0 <= j < x.len() - 1 ==> #[trigger] x[j] == y[j]
    &&& x.len() > 0 ==> x.last().0 == y[x.len() - 1].0 && x.last().1 <= y[x.len() - 1].1
}

/// Merging the first runs of a valid list gives what may yet become the
/// merged list.
pub proof fn lemma_coalesce_grows(runs: Seq<Run>, i: int)
    requires
        valid(runs),
        0 <= i <= runs.len(),
    ensures
        grows_to(coalesce(runs.take(i)), coalesce(runs)),
    decreases runs.len() - i,
{
    if i == runs.len() {
        assert(runs.take(i) =~= runs);
    } else {
        lemma_coalesce_grows(runs, i + 1);
        assert(runs.take(i + 1).drop_last() =~= runs.take(i));
        let x = coalesce(runs.take(i));
        let y = coalesce(runs.take(i + 1));
        assert(grows_to(x, y));
    }
}

/// Where the merged list of valid runs has counts within machine integers,
/// so has the merged list of its first runs.
pub proof fn lemma_coalesce_fits(runs: Seq<Run>, i: int)
    requires
        valid(runs),
        0 <= i <= runs.len(),
        counts_fit(coalesce(runs)),
    ensures
        counts_fit(coalesce(runs.take(i))),
{
    lemma_coalesce_grows(runs, i);
    lemma_coalesce(runs.take(i));
}

/// Runs of one operation each stand for just these operations.
pub proof fn lemma_unit_runs(runs: Seq<Run>, ops: Seq<CigarOp>)
    requires
        runs.len() == ops.len(),
        forall|m: int| 0 <= m < runs.len() ==> #[trigger] runs[m] == (ops[m], 1int),
    ensures
        valid(runs),
        unroll(runs) == ops,
    decreases runs.len(),
{
    if runs.len() > 0 {
        lemma_unit_runs(runs.drop_last(), ops.drop_last());
    }
}

} // verus!
