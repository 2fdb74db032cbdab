//! The bases that each operation of an alignment consumes.

use crate::cigar::{Cigar, CigarOp};
use crate::model::{
    lemma_offset_ends, lemma_offset_step, lemma_unroll_index, lemma_walk_monotone, lemma_walk_take,
    offset, span, unroll, walk,
};
use crate::verify::{content_fault, lemma_fault_persists};
use vstd::prelude::*;

verus! {

/// One operation of an alignment with the bases it consumes.
#[derive(Debug, PartialEq, Eq, Structural, Clone, Copy)]
pub enum CigarOpChars {
    /// The base that both sequences share.
    Match(u8),
    /// The base of the reference and the different base of the query.
    Sub(u8, u8),
    /// The base of the reference that the query lacks.
    Del(u8),
    /// The base of the query that the reference lacks.
    Ins(u8),
}

/// The operation `op`, taken at position `p`, with the bases it consumes.
pub open spec fn op_chars(op: CigarOp, p: (int, int), a: Seq<u8>, b: Seq<u8>) -> CigarOpChars {
    match op {
        CigarOp::Match => CigarOpChars::Match(a[p.0]),
        CigarOp::Sub => CigarOpChars::Sub(a[p.0], b[p.1]),
        CigarOp::Del => CigarOpChars::Del(a[p.0]),
        CigarOp::Ins => CigarOpChars::Ins(b[p.1]),
    }
}

/// Each operation of a list with the bases it consumes, each taken at the
/// position that the operations before it reach.
pub open spec fn char_pairs(ops: Seq<CigarOp>, a: Seq<u8>, b: Seq<u8>) -> Seq<CigarOpChars> {
    Seq::new(ops.len(), |k: int| op_chars(ops[k], walk(ops.take(k)), a, b))
}

impl Cigar {
    /// Gives, for each single operation of this alignment, the bases it
    /// consumes. The alignment must stay within both sequences, match equal
    /// bases only and substitute different bases only.
    pub fn to_char_pairs(&self, a: &[u8], b: &[u8]) -> (pairs: Vec<CigarOpChars>)
        requires
            span(self@).0 <= a@.len(),
            span(self@).1 <= b@.len(),
            content_fault(self.unrolled(), a@, b@) is None,
        ensures
            pairs@ == char_pairs(self.unrolled(), a@, b@),
    {
        let ghost all = self.unrolled();
        let ghost mut n: int = 0;
        let mut i: usize = 0;
        let mut j: usize = 0;
        let mut pairs: Vec<CigarOpChars> = Vec::new();
        let mut e: usize = 0;
        while e < self.ops.len()
            invariant
                e <= self.ops.len(),
                all == unroll(self@),
                walk(all).0 <= a@.len(),
                walk(all).1 <= b@.len(),
                n == offset(self@, e as int),
                0 <= n <= all.len(),
                (i as int, j as int) == walk(all.take(n)),
                pairs@ == char_pairs(all, a@, b@).take(n),
            decreases self.ops.len() - e,
        {
            let el = self.ops[e];
            let ghost base_n = n;
            proof {
                lemma_offset_step(self@, e as int);
            }
            let mut k: i32 = 0;
            while k < el.cnt
                invariant
                    e < self.ops.len(),
                    el@ == self@[e as int],
                    all == unroll(self@),
                    walk(all).0 <= a@.len(),
                    walk(all).1 <= b@.len(),
                    base_n == offset(self@, e as int),
                    0 <= k,
                    k <= el.cnt || k == 0,
                    n == base_n + k,
                    0 <= n <= all.len(),
                    (i as int, j as int) == walk(all.take(n)),
                    pairs@ == char_pairs(all, a@, b@).take(n),
                decreases el.cnt - k,
            {
                proof {
                    lemma_unroll_index(self@, e as int, k as int);
                    lemma_walk_take(all, n);
                    lemma_walk_monotone(all, n + 1, all.len() as int);
                    assert(all.take(all.len() as int) =~= all);
                    assert(a@.len() == a.len() && b@.len() == b.len());
                }
                match el.op {
                    CigarOp::Match => {
                        pairs.push(CigarOpChars::Match(a[i]));
                        i += 1;
                        j += 1;
                    },
                    CigarOp::Sub => {
                        pairs.push(CigarOpChars::Sub(a[i], b[j]));
                        i += 1;
                        j += 1;
                    },
                    CigarOp::Del => {
                        pairs.push(CigarOpChars::Del(a[i]));
                        i += 1;
                    },
                    CigarOp::Ins => {
                        pairs.push(CigarOpChars::Ins(b[j]));
                        j += 1;
                    },
                }
                k += 1;
                proof {
                    n = n + 1;
                }
            }
            e += 1;
        }
        proof {
            lemma_offset_ends(self@);
        }
        pairs
    }
}

/// Where an alignment is free of faults, the base of a match is the base of
/// the query too, and the two bases of a substitution differ.
pub proof fn lemma_char_pairs(ops: Seq<CigarOp>, a: Seq<u8>, b: Seq<u8>, k: int)
    requires
        content_fault(ops, a, b) is None,
        walk(ops).0 <= a.len(),
        walk(ops).1 <= b.len(),
        0 <= k < ops.len(),
    ensures
        ops[k] == CigarOp::Match ==> char_pairs(ops, a, b)[k] == CigarOpChars::Match(
            b[walk(ops.take(k)).1],
        ),
        ops[k] == CigarOp::Sub ==> a[walk(ops.take(k)).0] != b[walk(ops.take(k)).1],
{
    if content_fault(ops.take(k + 1), a, b) is Some {
        lemma_fault_persists(ops, k + 1, a, b);
    }
    lemma_walk_take(ops, k);
    lemma_walk_monotone(ops, k + 1, ops.len() as int);
    lemma_walk_monotone(ops, 0, k);
    assert(ops.take(ops.len() as int) =~= ops);
}

} // verus!
