//! Telling matches from substitutions by the bases of the two sequences.

use crate::cigar::{collect, runs_of, Cigar, CigarElem, CigarOp, Run};
use crate::model::{
    canonical, counts_fit, group, lemma_advance, lemma_group, lemma_group_repeat, lemma_offset_ends,
    lemma_offset_step, lemma_span_step, lemma_span_take, lemma_unroll_index, lemma_walk_monotone,
    lemma_walk_take, offset, point_fits, repeat, span, unroll, valid, walk,
};
use crate::I;
use vstd::prelude::*;
use vstd::std_specs::iter::IteratorSpec;

verus! {

/// The `k`-th operation of a list with its match resolved: a match stays one
/// where the bases at the position before it are equal, and becomes a
/// substitution where they differ. Every other operation stays as it is.
pub open spec fn resolve_op(ops: Seq<CigarOp>, k: int, a: Seq<u8>, b: Seq<u8>) -> CigarOp {
    if ops[k] == CigarOp::Match {
        let p = walk(ops.take(k));
        if a[p.0] == b[p.1] {
            CigarOp::Match
        } else {
            CigarOp::Sub
        }
    } else {
        ops[k]
    }
}

/// A list of operations with each of its matches resolved.
pub open spec fn resolve_ops(ops: Seq<CigarOp>, a: Seq<u8>, b: Seq<u8>) -> Seq<CigarOp> {
    Seq::new(ops.len(), |k: int| resolve_op(ops, k, a, b))
}

/// The runs of a list of runs with each of its matches resolved.
pub open spec fn resolved(runs: Seq<Run>, a: Seq<u8>, b: Seq<u8>) -> Seq<Run> {
    group(resolve_ops(unroll(runs), a, b))
}

/// Every match of a list of operations has a base of either sequence to look
/// at.
pub open spec fn matches_in_bounds(ops: Seq<CigarOp>, a_len: int, b_len: int) -> bool {
    forall|k: int|
        0 <= k < ops.len() && #[trigger] ops[k] == CigarOp::Match ==> walk(ops.take(k)).0 < a_len
            && walk(ops.take(k)).1 < b_len
}

/// Resolving matches moves no position.
pub proof fn lemma_resolve_walk(ops: Seq<CigarOp>, n: int, a: Seq<u8>, b: Seq<u8>)
    requires
        0 <= n <= ops.len(),
    ensures
        walk(resolve_ops(ops, a, b).take(n)) == walk(ops.take(n)),
    decreases n,
{
    if n > 0 {
        lemma_resolve_walk(ops, n - 1, a, b);
        lemma_walk_take(ops, n - 1);
        lemma_walk_take(resolve_ops(ops, a, b), n - 1);
    }
}

/// No run is longer than the way that all runs go in a coordinate that the
/// run advances.
pub proof fn lemma_run_within_span(runs: Seq<Run>, i: int)
    requires
        valid(runs),
        0 <= i < runs.len(),
    ensures
        runs[i].0 != CigarOp::Ins ==> runs[i].1 <= span(runs).0,
        runs[i].0 != CigarOp::Del ==> runs[i].1 <= span(runs).1,
{
    lemma_span_take(runs, i);
    lemma_span_take(runs, i + 1);
    lemma_span_step(runs, i);
}

/// The groups of the first operations of a list that ends within machine
/// integers have counts within machine integers.
pub proof fn lemma_group_fits(ops: Seq<CigarOp>, n: int)
    requires
        0 <= n <= ops.len(),
        point_fits(walk(ops)),
    ensures
        counts_fit(group(ops.take(n))),
{
    let g = group(ops.take(n));
    lemma_group(ops.take(n));
    lemma_walk_monotone(ops, n, ops.len() as int);
    assert(ops.take(ops.len() as int) =~= ops);
    assert forall|i: int| 0 <= i < g.len() implies i32::MIN <= (#[trigger] g[i]).1 <= i32::MAX by {
        lemma_run_within_span(g, i);
    }
}

/// Resolving the matches of resolved runs changes nothing.
pub proof fn lemma_resolve_idempotent(runs: Seq<Run>, a: Seq<u8>, b: Seq<u8>)
    ensures
        resolved(resolved(runs, a, b), a, b) == resolved(runs, a, b),
{
    let ops = unroll(runs);
    let once = resolve_ops(ops, a, b);
    lemma_group(once);
    assert forall|k: int| 0 <= k < once.len() implies resolve_op(once, k, a, b) == once[k] by {
        lemma_resolve_walk(ops, k, a, b);
    }
    assert(resolve_ops(once, a, b) =~= once);
}

/// Resolved runs meet what resolving asks of runs, where the runs they come
/// from do: they are valid, end at the same position, and match within both
/// sequences.
pub proof fn lemma_resolved_fits(runs: Seq<Run>, a: Seq<u8>, b: Seq<u8>)
    requires
        matches_in_bounds(unroll(runs), a.len() as int, b.len() as int),
    ensures
        canonical(resolved(runs, a, b)),
        span(resolved(runs, a, b)) == span(runs),
        matches_in_bounds(unroll(resolved(runs, a, b)), a.len() as int, b.len() as int),
{
    let ops = unroll(runs);
    let once = resolve_ops(ops, a, b);
    lemma_group(once);
    lemma_resolve_walk(ops, ops.len() as int, a, b);
    assert(ops.take(ops.len() as int) =~= ops);
    assert(once.take(once.len() as int) =~= once);
    assert forall|k: int| 0 <= k < once.len() && #[trigger] once[k] == CigarOp::Match implies walk(
        once.take(k),
    ).0 < a.len() && walk(once.take(k)).1 < b.len() by {
        lemma_resolve_walk(ops, k, a, b);
    }
}

impl Cigar {
    /// Splits all matches into matches and substitutions, by the bases of
    /// the two sequences, and joins consecutive equal elements.
    pub fn resolve_matches(ops: impl Iterator<Item = CigarElem>, a: &[u8], b: &[u8]) -> (c: Cigar)
        requires
            ops.obeys_prophetic_iter_laws(),
            ops.decrease() is Some,
            valid(runs_of(ops.remaining())),
            point_fits(span(runs_of(ops.remaining()))),
            matches_in_bounds(unroll(runs_of(ops.remaining())), a@.len() as int, b@.len() as int),
        ensures
            c@ == resolved(runs_of(ops.remaining()), a@, b@),
            canonical(c@),
            c.unrolled() == resolve_ops(unroll(runs_of(ops.remaining())), a@, b@),
    {
        let elems = collect(ops);
        Cigar::resolve_elems(elems.as_slice(), a, b)
    }

    /// Resolves the matches of a list of elements.
    pub(crate) fn resolve_elems(ops: &[CigarElem], a: &[u8], b: &[u8]) -> (c: Cigar)
        requires
            valid(runs_of(ops@)),
            point_fits(span(runs_of(ops@))),
            matches_in_bounds(unroll(runs_of(ops@)), a@.len() as int, b@.len() as int),
        ensures
            c@ == resolved(runs_of(ops@), a@, b@),
            canonical(c@),
            c.unrolled() == resolve_ops(unroll(runs_of(ops@)), a@, b@),
    {
        let ghost runs = runs_of(ops@);
        let ghost all = unroll(runs);
        let ghost res = resolve_ops(all, a@, b@);
        let ghost mut n: int = 0;
        let mut i: I = 0;
        let mut j: I = 0;
        let mut c = Cigar { ops: Vec::new() };
        proof {
            lemma_resolve_walk(all, all.len() as int, a@, b@);
            assert(all.take(all.len() as int) =~= all);
            assert(res.take(res.len() as int) =~= res);
        }
        let mut e: usize = 0;
        while e < ops.len()
            invariant
                e <= ops.len(),
                runs == runs_of(ops@),
                valid(runs),
                all == unroll(runs),
                res == resolve_ops(all, a@, b@),
                point_fits(walk(all)),
                point_fits(walk(res)),
                matches_in_bounds(all, a@.len() as int, b@.len() as int),
                n == offset(runs, e as int),
                0 <= n <= all.len(),
                (i as int, j as int) == walk(all.take(n)),
                c@ == group(res.take(n)),
            decreases ops.len() - e,
        {
            let el = ops[e];
            let ghost base_n = n;
            proof {
                assert(runs[e as int] == el@);
                lemma_offset_step(runs, e as int);
            }
            if el.op == CigarOp::Match {
                let mut k: I = 0;
                while k < el.cnt
                    invariant
                        e < ops.len(),
                        runs == runs_of(ops@),
                        el@ == runs[e as int],
                        el.op == CigarOp::Match,
                        all == unroll(runs),
                        res == resolve_ops(all, a@, b@),
                        point_fits(walk(all)),
                        point_fits(walk(res)),
                        matches_in_bounds(all, a@.len() as int, b@.len() as int),
                        base_n == offset(runs, e as int),
                        0 <= k <= el.cnt,
                        n == base_n + k,
                        0 <= n <= all.len(),
                        (i as int, j as int) == walk(all.take(n)),
                        c@ == group(res.take(n)),
                    decreases el.cnt - k,
                {
                    proof {
                        lemma_unroll_index(runs, e as int, k as int);
                        lemma_walk_take(all, n);
                        lemma_walk_monotone(all, 0, n);
                        lemma_walk_monotone(all, n + 1, all.len() as int);
                        assert(all.take(all.len() as int) =~= all);
                        assert(res.take(n + 1).drop_last() =~= res.take(n));
                        lemma_group_fits(res, n + 1);
                    }
                    c.push(
                        if a[i as usize] == b[j as usize] {
                            CigarOp::Match
                        } else {
                            CigarOp::Sub
                        },
                    );
                    i += 1;
                    j += 1;
                    k += 1;
                    proof {
                        n = n + 1;
                    }
                }
            } else {
                proof {
                    assert forall|m: int| n <= m < n + el.cnt implies res[m] == el.op by {
                        lemma_unroll_index(runs, e as int, m - n);
                    }
                    assert(res.take(n + el.cnt) =~= res.take(n) + repeat(el.op, el.cnt as int));
                    lemma_group_repeat(res.take(n), el.op, el.cnt as int);
                    lemma_group_fits(res, n + el.cnt);
                    lemma_span_take(runs, e as int);
                    lemma_span_take(runs, e as int + 1);
                    lemma_span_step(runs, e as int);
                    lemma_advance(walk(all.take(n)), el.op, el.cnt as int);
                    n = n + el.cnt;
                }
                match el.op {
                    CigarOp::Sub => {
                        i += el.cnt;
                        j += el.cnt;
                    },
                    CigarOp::Ins => {
                        j += el.cnt;
                    },
                    _ => {
                        i += el.cnt;
                    },
                }
                c.push_elem(el);
            }
            e += 1;
        }
        proof {
            lemma_offset_ends(runs);
            lemma_group(res);
        }
        c
    }
}

} // verus!
