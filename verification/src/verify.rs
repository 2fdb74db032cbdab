//! Checking an alignment against the two sequences it claims to align.

use crate::cigar::{Cigar, CigarOp, Run};
use crate::cost::{Cost, CostModel};
use crate::model::{
    lemma_advance, lemma_offset_step, lemma_span_step, lemma_span_take, lemma_unroll_index,
    lemma_walk_take, offset, path_of, span, unroll, valid, walk,
};
use vstd::prelude::*;

verus! {

/// Why an alignment does not fit the sequences it is held against.
#[derive(Debug, PartialEq, Eq, Structural, Clone, Copy)]
pub enum VerifyError {
    /// A base that is claimed to match differs between the sequences, or is
    /// there in one sequence only.
    MatchMismatch,
    /// A base that is claimed to be substituted is the same in both
    /// sequences, or is there in neither.
    SubEquality,
    /// The alignment does not end where both sequences end.
    LengthMismatch,
}

/// The base at index `i` of a sequence, if there is one.
pub open spec fn base_at(s: Seq<u8>, i: int) -> Option<u8> {
    if 0 <= i < s.len() {
        Some(s[i])
    } else {
        None
    }
}

/// What is wrong with one operation taken at position `p`: a match of
/// different bases, or a substitution of equal ones. Gaps compare nothing.
pub open spec fn base_fault(op: CigarOp, p: (int, int), a: Seq<u8>, b: Seq<u8>) -> Option<
    VerifyError,
> {
    let same = base_at(a, p.0) == base_at(b, p.1);
    match op {
        CigarOp::Match => if same {
            None
        } else {
            Some(VerifyError::MatchMismatch)
        },
        CigarOp::Sub => if same {
            Some(VerifyError::SubEquality)
        } else {
            None
        },
        _ => None,
    }
}

/// The first fault among the operations of an alignment, each taken at the
/// position that the operations before it reach.
pub open spec fn content_fault(ops: Seq<CigarOp>, a: Seq<u8>, b: Seq<u8>) -> Option<VerifyError>
    decreases ops.len(),
{
    if ops.len() == 0 {
        None
    } else {
        match content_fault(ops.drop_last(), a, b) {
            Some(e) => Some(e),
            None => base_fault(ops.last(), walk(ops.drop_last()), a, b),
        }
    }
}

/// The faults of one more operation are those before it or, if there is
/// none, its own.
pub proof fn lemma_fault_take(ops: Seq<CigarOp>, n: int, a: Seq<u8>, b: Seq<u8>)
    requires
        0 <= n < ops.len(),
    ensures
        content_fault(ops.take(n + 1), a, b) == match content_fault(ops.take(n), a, b) {
            Some(e) => Some(e),
            None => base_fault(ops[n], walk(ops.take(n)), a, b),
        },
{
    assert(ops.take(n + 1).drop_last() =~= ops.take(n));
}

/// A fault stays the first fault, whatever follows it.
pub proof fn lemma_fault_persists(ops: Seq<CigarOp>, n: int, a: Seq<u8>, b: Seq<u8>)
    requires
        0 <= n <= ops.len(),
        content_fault(ops.take(n), a, b) is Some,
    ensures
        content_fault(ops, a, b) == content_fault(ops.take(n), a, b),
    decreases ops.len() - n,
{
    if n == ops.len() {
        assert(ops.take(n) =~= ops);
    } else {
        lemma_fault_take(ops, n, a, b);
        lemma_fault_persists(ops, n + 1, a, b);
    }
}

/// Gaps add no fault.
pub proof fn lemma_fault_gap(ops: Seq<CigarOp>, m: int, n: int, a: Seq<u8>, b: Seq<u8>)
    requires
        0 <= m <= n <= ops.len(),
        forall|j: int| m <= j < n ==> ops[j] == CigarOp::Ins || ops[j] == CigarOp::Del,
    ensures
        content_fault(ops.take(n), a, b) == content_fault(ops.take(m), a, b),
    decreases n - m,
{
    if m < n {
        lemma_fault_gap(ops, m, n - 1, a, b);
        lemma_fault_take(ops, n - 1, a, b);
    }
}

/// What checking a list of runs against two sequences gives: the first fault
/// among its operations; if there is none, a length mismatch unless the runs
/// end where both sequences end; and else their cost.
pub open spec fn verdict(runs: Seq<Run>, cm: CostModel, a: Seq<u8>, b: Seq<u8>) -> Result<
    int,
    VerifyError,
> {
    match content_fault(unroll(runs), a, b) {
        Some(e) => Err(e),
        None => if span(runs) == (a.len() as int, b.len() as int) {
            Ok(cm.cost(runs))
        } else {
            Err(VerifyError::LengthMismatch)
        },
    }
}

/// Runs that do not end where both sequences end are never accepted, and
/// are refused for their length unless a fault among their operations comes
/// first.
pub proof fn lemma_length_mismatch(runs: Seq<Run>, cm: CostModel, a: Seq<u8>, b: Seq<u8>)
    requires
        span(runs) != (a.len() as int, b.len() as int),
    ensures
        verdict(runs, cm, a, b) is Err,
        content_fault(unroll(runs), a, b) is None ==> verdict(runs, cm, a, b) == Err::<
            int,
            VerifyError,
        >(VerifyError::LengthMismatch),
{
}

/// Runs that are accepted end where both sequences end, and so does the path
/// along them; every base they match is the same in both sequences, and every
/// base they substitute differs.
pub proof fn lemma_accepted(runs: Seq<Run>, cm: CostModel, a: Seq<u8>, b: Seq<u8>, k: int)
    requires
        verdict(runs, cm, a, b) is Ok,
        0 <= k < unroll(runs).len(),
    ensures
        verdict(runs, cm, a, b) == Ok::<int, VerifyError>(cm.cost(runs)),
        path_of(unroll(runs)).last() == (a.len() as int, b.len() as int),
        base_fault(unroll(runs)[k], path_of(unroll(runs))[k], a, b) is None,
{
    let ops = unroll(runs);
    assert(ops.take(ops.len() as int) =~= ops);
    if content_fault(ops.take(k + 1), a, b) is Some {
        lemma_fault_persists(ops, k + 1, a, b);
    }
    lemma_fault_take(ops, k, a, b);
}

/// The base at index `i` of a sequence, if there is one.
fn base(s: &[u8], i: u128) -> (r: Option<u8>)
    ensures
        r == base_at(s@, i as int),
{
    if i < s.len() as u128 {
        Some(s[i as usize])
    } else {
        None
    }
}

impl Cigar {
    /// What checking this alignment against two sequences gives: the first
    /// fault among its operations; if there is none, a length mismatch
    /// unless it ends where both sequences end; and else its cost.
    pub open spec fn spec_verify(&self, cm: CostModel, a: Seq<u8>, b: Seq<u8>) -> Result<
        int,
        VerifyError,
    > {
        verdict(self@, cm, a, b)
    }

    /// Walks this alignment along both sequences and returns its cost, or
    /// the first claim of it that the sequences do not bear out.
    pub fn verify(&self, cm: &CostModel, a: &[u8], b: &[u8]) -> (r: Result<Cost, VerifyError>)
        requires
            cm.valid(),
            valid(self@),
            cm.cost(self@) <= i32::MAX,
        ensures
            match r {
                Ok(c) => self.spec_verify(*cm, a@, b@) == Ok::<int, VerifyError>(c as int),
                Err(e) => self.spec_verify(*cm, a@, b@) == Err::<int, VerifyError>(e),
            },
    {
        let ghost all = self.unrolled();
        let ghost mut n: int = 0;
        let mut pos: (u128, u128) = (0, 0);
        let mut cost: Cost = 0;
        let mut i: usize = 0;
        while i < self.ops.len()
            invariant
                i <= self.ops.len(),
                cm.valid(),
                valid(self@),
                cm.cost(self@) <= i32::MAX,
                all == unroll(self@),
                n == offset(self@, i as int),
                0 <= n <= all.len(),
                n <= i * 0x7fff_ffff,
                (pos.0 as int, pos.1 as int) == walk(all.take(n)),
                pos.0 <= n,
                pos.1 <= n,
                cost == cm.cost(self@.take(i as int)),
                content_fault(all.take(n), a@, b@) is None,
            decreases self.ops.len() - i,
        {
            let el = self.ops[i];
            let ghost base_n = n;
            proof {
                lemma_offset_step(self@, i as int);
                cm.lemma_cost_step(self@, i as int);
                cm.lemma_cost_take(self@, i as int + 1);
                cm.lemma_cost_take(self@, i as int);
            }
            match el.op {
                CigarOp::Match | CigarOp::Sub => {
                    let mut k: i32 = 0;
                    while k < el.cnt
                        invariant
                            i < self.ops.len(),
                            el@ == self@[i as int],
                            el.op == CigarOp::Match || el.op == CigarOp::Sub,
                            cm.valid(),
                            all == unroll(self@),
                            base_n == offset(self@, i as int),
                            base_n <= i * 0x7fff_ffff,
                            0 <= k <= el.cnt,
                            n == base_n + k,
                            0 <= n <= all.len(),
                            (pos.0 as int, pos.1 as int) == walk(all.take(n)),
                            pos.0 <= n,
                            pos.1 <= n,
                            0 <= cm.cost(self@.take(i as int)),
                            cm.cost(self@.take(i as int)) + cm.run_cost(el.op, el.cnt as int)
                                <= i32::MAX,
                            cost == cm.cost(self@.take(i as int)) + cm.run_cost(el.op, k as int),
                            content_fault(all.take(n), a@, b@) is None,
                        decreases el.cnt - k,
                    {
                        proof {
                            lemma_unroll_index(self@, i as int, k as int);
                            lemma_walk_take(all, n);
                            lemma_fault_take(all, n, a@, b@);
                            cm.lemma_run_cost_grows(el.op, k as int + 1, el.cnt as int);
                            assert((k + 1) * cm.sub == k * cm.sub + cm.sub) by (nonlinear_arith);
                        }
                        let same = base(a, pos.0) == base(b, pos.1);
                        if same != (el.op == CigarOp::Match) {
                            proof {
                                lemma_fault_persists(all, n + 1, a@, b@);
                            }
                            if same {
                                return Err(VerifyError::SubEquality);
                            } else {
                                return Err(VerifyError::MatchMismatch);
                            }
                        }
                        pos.0 += 1;
                        pos.1 += 1;
                        if el.op == CigarOp::Sub {
                            cost += cm.sub;
                        }
                        k += 1;
                        proof {
                            n = n + 1;
                        }
                    }
                },
                CigarOp::Ins | CigarOp::Del => {
                    proof {
                        assert forall|j: int| n <= j < n + el.cnt implies all[j] == el.op by {
                            lemma_unroll_index(self@, i as int, j - n);
                        }
                        lemma_fault_gap(all, n, n + el.cnt, a@, b@);
                        lemma_span_take(self@, i as int);
                        lemma_span_take(self@, i as int + 1);
                        lemma_span_step(self@, i as int);
                        lemma_advance(walk(all.take(n)), el.op, el.cnt as int);
                        n = n + el.cnt;
                    }
                    if el.op == CigarOp::Ins {
                        pos.1 += el.cnt as u128;
                    } else {
                        pos.0 += el.cnt as u128;
                    }
                    cost += cm.cost_of_run(el.op, el.cnt);
                },
            }
            i += 1;
        }
        proof {
            assert(all.take(all.len() as int) =~= all);
            assert(self@.take(self@.len() as int) =~= self@);
        }
        if pos.0 == a.len() as u128 && pos.1 == b.len() as u128 {
            Ok(cost)
        } else {
            Err(VerifyError::LengthMismatch)
        }
    }
}

} // verus!
