//! Conversions between an alignment and the path of positions it visits.

use crate::cigar::{runs_of, Cigar, CigarElem, CigarOp, Run};
use crate::cost::{Cost, CostModel};
use crate::model::{
    advance, canonical, group, lemma_group, lemma_offset_ends, lemma_offset_step,
    lemma_path_of_take, lemma_span_step, lemma_span_take, lemma_unit_runs, lemma_unroll_index,
    lemma_walk_monotone, lemma_walk_take, offset, path_of, point_fits, repeat, span, unroll, valid,
    walk,
};
use crate::pos::Pos;
use crate::resolve::{lemma_resolve_walk, resolve_ops};
use crate::trusted::steps;
use vstd::prelude::*;

verus! {

/// The path corresponding to an alignment of two sequences.
pub type Path = Vec<Pos>;

/// The positions of a path as pairs of mathematical integers.
pub open spec fn points(path: Seq<Pos>) -> Seq<(int, int)> {
    path.map_values(|p: Pos| p@)
}

impl Cigar {
    /// The path of this alignment: the start, and the position after each
    /// single operation.
    pub open spec fn spec_path(&self) -> Seq<(int, int)> {
        path_of(self.unrolled())
    }

    /// Replays the operations of this alignment from the start and returns
    /// every position visited.
    pub fn to_path(&self) -> (path: Path)
        requires
            point_fits(self.end()),
        ensures
            points(path@) == self.spec_path(),
    {
        let ghost all = self.unrolled();
        let ghost mut n: int = 0;
        let mut pos = Pos(0, 0);
        let mut path: Vec<Pos> = Vec::new();
        path.push(pos);
        let mut i: usize = 0;
        while i < self.ops.len()
            invariant
                i <= self.ops.len(),
                all == unroll(self@),
                point_fits(walk(all)),
                n == offset(self@, i as int),
                0 <= n <= all.len(),
                pos@ == walk(all.take(n)),
                points(path@) == path_of(all.take(n)),
            decreases self.ops.len() - i,
        {
            let el = self.ops[i];
            let d = el.op.delta();
            let ghost base = n;
            let mut k: i32 = 0;
            while k < el.cnt
                invariant
                    i < self.ops.len(),
                    el == self.ops[i as int],
                    d@ == el.op.spec_delta(),
                    all == unroll(self@),
                    point_fits(walk(all)),
                    base == offset(self@, i as int),
                    0 <= k,
                    k <= el.cnt || k == 0,
                    n == base + k,
                    0 <= n <= all.len(),
                    pos@ == walk(all.take(n)),
                    points(path@) == path_of(all.take(n)),
                decreases el.cnt - k,
            {
                proof {
                    lemma_unroll_index(self@, i as int, k as int);
                    lemma_walk_take(all, n);
                    lemma_path_of_take(all, n);
                    lemma_walk_monotone(all, n + 1, all.len() as int);
                    assert(all.take(all.len() as int) =~= all);
                }
                pos = pos + d;
                path.push(pos);
                k += 1;
                proof {
                    n = n + 1;
                }
            }
            proof {
                lemma_offset_step(self@, i as int);
            }
            i += 1;
        }
        proof {
            lemma_offset_ends(self@);
            assert(all.take(all.len() as int) =~= all);
        }
        path
    }

    /// Reads an alignment off a path: each step becomes one operation, each
    /// diagonal step a match or a substitution by the bases it passes, and
    /// consecutive equal operations are counted together.
    pub fn from_path(a: &[u8], b: &[u8], path: &Path) -> (c: Cigar)
        requires
            is_path(path@),
            path_in_bounds(path@, a@.len() as int, b@.len() as int),
        ensures
            c@ == group(resolve_ops(path_ops(path@), a@, b@)),
            canonical(c@),
            c.spec_path() == points(path@),
    {
        let pairs = steps(path.as_slice());
        let mut elems: Vec<CigarElem> = Vec::new();
        let mut k: usize = 0;
        while k < pairs.len()
            invariant
                k <= pairs.len(),
                is_path(path@),
                pairs@.len() == path@.len() - 1,
                forall|m: int| 0 <= m < pairs@.len() ==> pairs@[m] == (path@[m], path@[m + 1]),
                elems@.len() == k,
                forall|m: int|
                    0 <= m < k ==> (#[trigger] elems@[m]) == (CigarElem {
                        op: path_ops(path@)[m],
                        cnt: 1,
                    }),
            decreases pairs.len() - k,
        {
            let (p, q) = pairs[k];
            let d = q - p;
            let op = if d == CigarOp::Ins.delta() {
                CigarOp::Ins
            } else if d == CigarOp::Del.delta() {
                CigarOp::Del
            } else {
                CigarOp::Match
            };
            elems.push(CigarElem { op, cnt: 1 });
            k += 1;
        }
        proof {
            let ops = path_ops(path@);
            let runs = runs_of(elems@);
            lemma_unit_runs(runs, ops);
            lemma_path_ops(path@, ops.len() as int);
            lemma_from_path_to_path(path@, a@, b@);
            assert(ops.take(ops.len() as int) =~= ops);
            assert forall|m: int|
                0 <= m < ops.len() && #[trigger] ops[m] == CigarOp::Match implies walk(
                ops.take(m),
            ).0 < a@.len() && walk(ops.take(m)).1 < b@.len() by {
                lemma_path_ops(path@, m);
            }
        }
        Cigar::resolve_elems(elems.as_slice(), a, b)
    }

    /// The trace of this alignment under a cost model: for the start and for
    /// the position after each single operation, the position and the cost so
    /// far.
    pub open spec fn spec_trace(&self, cm: CostModel) -> Seq<((int, int), int)> {
        trace_of(self@, cm)
    }

    /// Replays the operations of this alignment from the start and returns
    /// every position visited, each with the cost of the alignment up to it.
    pub fn to_path_with_costs(&self, cm: CostModel) -> (path: Vec<(Pos, Cost)>)
        requires
            cm.valid(),
            valid(self@),
            point_fits(self.end()),
            cm.cost(self@) <= i32::MAX,
        ensures
            traced(path@) == self.spec_trace(cm),
    {
        let mut pos = Pos(0, 0);
        let mut cost: Cost = 0;
        let mut path: Vec<(Pos, Cost)> = Vec::new();
        path.push((pos, cost));
        let mut i: usize = 0;
        while i < self.ops.len()
            invariant
                i <= self.ops.len(),
                cm.valid(),
                valid(self@),
                point_fits(span(self@)),
                cm.cost(self@) <= i32::MAX,
                pos@ == span(self@.take(i as int)),
                cost == cm.cost(self@.take(i as int)),
                traced(path@) == trace_of(self@.take(i as int), cm),
            decreases self.ops.len() - i,
        {
            let el = self.ops[i];
            let d = el.op.delta();
            let ghost before = self@.take(i as int);
            let ghost start = span(before);
            let ghost done = trace_of(before, cm);
            proof {
                lemma_span_step(self@, i as int);
                lemma_span_take(self@, i as int + 1);
                lemma_span_take(self@, i as int);
                cm.lemma_cost_step(self@, i as int);
                cm.lemma_cost_take(self@, i as int + 1);
                cm.lemma_cost_take(self@, i as int);
            }
            let mut k: i32 = 0;
            while k < el.cnt
                invariant
                    cm.valid(),
                    el.cnt >= 1,
                    0 <= k <= el.cnt,
                    d@ == el.op.spec_delta(),
                    start == span(before),
                    done == trace_of(before, cm),
                    cost == cm.cost(before),
                    0 <= cost,
                    cost + cm.run_cost(el.op, el.cnt as int) <= i32::MAX,
                    point_fits(advance(start, el.op, el.cnt as int)),
                    0 <= start.0,
                    0 <= start.1,
                    pos@ == advance(start, el.op, k as int),
                    traced(path@) == done + run_trace(start, cost as int, cm, el.op, k as int),
                decreases el.cnt - k,
            {
                proof {
                    cm.lemma_run_cost_grows(el.op, k as int + 1, el.cnt as int);
                    lemma_advance_grows(start, el.op, k as int, k as int + 1);
                }
                let ghost shorter = run_trace(start, cost as int, cm, el.op, k as int);
                k += 1;
                pos = pos + d;
                let so_far = cost + cm.cost_of_run(el.op, k);
                path.push((pos, so_far));
                proof {
                    let point = (pos@, so_far as int);
                    assert(run_trace(start, cost as int, cm, el.op, k as int) =~= shorter.push(
                        point,
                    ));
                    assert(done + shorter.push(point) =~= (done + shorter).push(point));
                }
            }
            cost = cost + cm.cost_of_run(el.op, el.cnt);
            proof {
                assert(self@.take(i as int + 1).drop_last() =~= before);
            }
            i += 1;
        }
        proof {
            assert(self@.take(self@.len() as int) =~= self@);
        }
        path
    }
}

/// The operation that leads from a position to the next one on a path: an
/// insertion, a deletion or, for a diagonal step, a match. No other step is
/// one of a path.
pub open spec fn step_op(p: Pos, q: Pos) -> Option<CigarOp> {
    let d = (q.0 - p.0, q.1 - p.1);
    if d == CigarOp::Ins.spec_delta() {
        Some(CigarOp::Ins)
    } else if d == CigarOp::Del.spec_delta() {
        Some(CigarOp::Del)
    } else if d == CigarOp::Match.spec_delta() {
        Some(CigarOp::Match)
    } else {
        None
    }
}

/// A path starts at the origin and goes on by single steps.
pub open spec fn is_path(path: Seq<Pos>) -> bool {
    &&& path.len() > 0
    &&& path[0] == Pos(0, 0)
    &&& forall|k: int| 0 <= k < path.len() - 1 ==> step_op(#[trigger] path[k], path[k + 1]) is Some
}

/// Every diagonal step of a path starts at a base of either sequence.
pub open spec fn path_in_bounds(path: Seq<Pos>, a_len: int, b_len: int) -> bool {
    forall|k: int|
        0 <= k < path.len() - 1 && step_op(#[trigger] path[k], path[k + 1]) == Some(CigarOp::Match)
            ==> path[k].0 < a_len && path[k].1 < b_len
}

/// The operations of a path, one for each step, with every diagonal step
/// taken as a match.
pub open spec fn path_ops(path: Seq<Pos>) -> Seq<CigarOp> {
    Seq::new(
        if path.len() > 0 {
            (path.len() - 1) as nat
        } else {
            0
        },
        |k: int| step_op(path[k], path[k + 1]).unwrap(),
    )
}

/// The operations of a path lead to each of its positions.
pub proof fn lemma_path_ops(path: Seq<Pos>, k: int)
    requires
        is_path(path),
        0 <= k < path.len(),
    ensures
        walk(path_ops(path).take(k)) == path[k]@,
    decreases k,
{
    let ops = path_ops(path);
    if k > 0 {
        lemma_path_ops(path, k - 1);
        lemma_walk_take(ops, k - 1);
    }
}

/// A path starts at the origin, ends where its operations lead, and goes
/// from each position to the next by the step of one operation.
pub proof fn lemma_path_consistent(ops: Seq<CigarOp>)
    ensures
        path_of(ops).len() == ops.len() + 1,
        path_of(ops)[0] == (0int, 0int),
        path_of(ops).last() == walk(ops),
        forall|k: int|
            #![trigger path_of(ops)[k]]
            0 <= k < ops.len() ==> path_of(ops)[k + 1] == advance(path_of(ops)[k], ops[k], 1),
{
    assert(ops.take(ops.len() as int) =~= ops);
    assert forall|k: int| #![trigger path_of(ops)[k]] 0 <= k < ops.len() implies path_of(ops)[k
        + 1] == advance(path_of(ops)[k], ops[k], 1) by {
        lemma_walk_take(ops, k);
    }
}

/// The alignment read off a path goes along that path.
pub proof fn lemma_from_path_to_path(path: Seq<Pos>, a: Seq<u8>, b: Seq<u8>)
    requires
        is_path(path),
    ensures
        path_of(unroll(group(resolve_ops(path_ops(path), a, b)))) == points(path),
{
    let ops = path_ops(path);
    let res = resolve_ops(ops, a, b);
    lemma_group(res);
    assert forall|k: int| 0 <= k < path.len() implies path_of(res)[k] == points(path)[k] by {
        lemma_resolve_walk(ops, k, a, b);
        lemma_path_ops(path, k);
    }
}

/// A trace as positions in pairs of mathematical integers, with the costs.
pub open spec fn traced(path: Seq<(Pos, Cost)>) -> Seq<((int, int), int)> {
    path.map_values(|t: (Pos, Cost)| (t.0@, t.1 as int))
}

/// The trace of the first `k` operations of a run of `op` that starts at
/// `start` with the cost `before`: within a gap, each point carries the cost
/// of the gap as far as it has come.
pub open spec fn run_trace(
    start: (int, int),
    before: int,
    cm: CostModel,
    op: CigarOp,
    k: int,
) -> Seq<((int, int), int)> {
    Seq::new(
        repeat(op, k).len(),
        |j: int| (advance(start, op, j + 1), before + cm.run_cost(op, j + 1)),
    )
}

/// The trace of a list of runs: the start at no cost, and then the trace of
/// each run from where the runs before it end, at the cost of those runs.
pub open spec fn trace_of(runs: Seq<Run>, cm: CostModel) -> Seq<((int, int), int)>
    decreases runs.len(),
{
    if runs.len() == 0 {
        seq![((0int, 0int), 0int)]
    } else {
        let init = runs.drop_last();
        trace_of(init, cm) + run_trace(
            span(init),
            cm.cost(init),
            cm,
            runs.last().0,
            runs.last().1,
        )
    }
}

/// The further a run has come, the further both coordinates have.
pub proof fn lemma_advance_grows(p: (int, int), op: CigarOp, j: int, k: int)
    requires
        j <= k,
    ensures
        advance(p, op, j).0 <= advance(p, op, k).0,
        advance(p, op, j).1 <= advance(p, op, k).1,
        k == j + 1 ==> advance(p, op, k).0 == advance(p, op, j).0 + op.spec_delta().0,
        k == j + 1 ==> advance(p, op, k).1 == advance(p, op, j).1 + op.spec_delta().1,
{
    let d = op.spec_delta();
    assert(j * d.0 <= k * d.0 && (k == j + 1 ==> k * d.0 == j * d.0 + d.0)) by (nonlinear_arith)
        requires
            j <= k,
            d.0 >= 0,
    ;
    assert(j * d.1 <= k * d.1 && (k == j + 1 ==> k * d.1 == j * d.1 + d.1)) by (nonlinear_arith)
        requires
            j <= k,
            d.1 >= 0,
    ;
}

} // verus!
