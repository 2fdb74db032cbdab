//! The run-length encoded alignment: its operations, its runs, and the
//! builders that keep runs merged.

use crate::model::{
    canonical, counts_fit, group, lemma_coalesce_canonical, lemma_group_unroll, lemma_offset_step,
    lemma_unroll_push_op, push_run, unroll, valid, walk,
};
use crate::pos::Pos;
use crate::trusted::{lengths, run_lengths};
use crate::I;
use vstd::prelude::*;
use vstd::std_specs::iter::IteratorSpec;

verus! {

/// One step of an alignment.
///
/// A deletion consumes a base of the reference only, an insertion a base of
/// the query only; a match and a substitution consume one of each.
#[derive(Debug, PartialEq, Eq, Structural, Clone, Copy)]
pub enum CigarOp {
    Match,
    Sub,
    Del,
    Ins,
}

/// A run of `cnt` equal operations.
#[derive(Debug, PartialEq, Eq, Structural, Clone, Copy)]
pub struct CigarElem {
    pub op: CigarOp,
    pub cnt: I,
}

/// An alignment as a list of runs, read from the start of both sequences.
#[derive(Debug, PartialEq, Eq)]
pub struct Cigar {
    pub ops: Vec<CigarElem>,
}

/// A run in the model: an operation and how often it is repeated.
pub type Run = (CigarOp, int);

/// The byte `=`, which stands for a match.
pub const BYTE_MATCH: u8 = 61;

/// The byte `M`, which stands for a match too.
pub const BYTE_ALIGNED: u8 = 77;

/// The byte `X`, which stands for a substitution.
pub const BYTE_SUB: u8 = 88;

/// The byte `I`, which stands for an insertion.
pub const BYTE_INS: u8 = 73;

/// The byte `D`, which stands for a deletion.
pub const BYTE_DEL: u8 = 68;

impl CigarOp {
    /// By how much one operation advances the position in the reference and
    /// in the query. Every conversion between runs and paths goes by this table.
    pub open spec fn spec_delta(self) -> (int, int) {
        match self {
            CigarOp::Match => (1, 1),
            CigarOp::Sub => (1, 1),
            CigarOp::Del => (1, 0),
            CigarOp::Ins => (0, 1),
        }
    }

    /// The character that stands for this operation in text.
    pub open spec fn spec_char(self) -> char {
        match self {
            CigarOp::Match => '=',
            CigarOp::Sub => 'X',
            CigarOp::Ins => 'I',
            CigarOp::Del => 'D',
        }
    }

    /// The byte that stands for this operation in text.
    pub open spec fn spec_byte(self) -> u8 {
        match self {
            CigarOp::Match => BYTE_MATCH,
            CigarOp::Sub => BYTE_SUB,
            CigarOp::Ins => BYTE_INS,
            CigarOp::Del => BYTE_DEL,
        }
    }

    /// Whether a byte of text stands for an operation.
    pub open spec fn is_op_byte(b: u8) -> bool {
        b == BYTE_MATCH || b == BYTE_ALIGNED || b == BYTE_SUB || b == BYTE_INS || b == BYTE_DEL
    }

    /// The operation that a byte of text stands for: `=` and `M` for a match,
    /// `X` for a substitution, `I` for an insertion and `D` for a deletion.
    pub open spec fn spec_from(b: u8) -> CigarOp {
        if b == BYTE_SUB {
            CigarOp::Sub
        } else if b == BYTE_INS {
            CigarOp::Ins
        } else if b == BYTE_DEL {
            CigarOp::Del
        } else {
            CigarOp::Match
        }
    }

    /// The step that this operation takes.
    pub fn delta(&self) -> (d: Pos)
        ensures
            d@ == self.spec_delta(),
    {
        match self {
            CigarOp::Match => Pos(1, 1),
            CigarOp::Sub => Pos(1, 1),
            CigarOp::Del => Pos(1, 0),
            CigarOp::Ins => Pos(0, 1),
        }
    }

    pub fn to_char(&self) -> (c: char)
        ensures
            c == self.spec_char(),
    {
        match self {
            CigarOp::Match => '=',
            CigarOp::Sub => 'X',
            CigarOp::Ins => 'I',
            CigarOp::Del => 'D',
        }
    }

    /// The byte that stands for this operation in text.
    pub fn to_byte(&self) -> (b: u8)
        ensures
            b == self.spec_byte(),
            b == self.spec_char() as u8,
    {
        match self {
            CigarOp::Match => BYTE_MATCH,
            CigarOp::Sub => BYTE_SUB,
            CigarOp::Ins => BYTE_INS,
            CigarOp::Del => BYTE_DEL,
        }
    }

    /// Reads an operation from its byte in text.
    pub fn from(op: u8) -> (r: Self)
        requires
            Self::is_op_byte(op),
        ensures
            r == Self::spec_from(op),
    {
        if op == BYTE_SUB {
            CigarOp::Sub
        } else if op == BYTE_INS {
            CigarOp::Ins
        } else if op == BYTE_DEL {
            CigarOp::Del
        } else {
            CigarOp::Match
        }
    }
}

impl View for CigarElem {
    type V = Run;

    open spec fn view(&self) -> Run {
        (self.op, self.cnt as int)
    }
}

impl CigarElem {
    pub fn new(op: CigarOp, cnt: I) -> (e: Self)
        ensures
            e == (CigarElem { op, cnt }),
    {
        Self { op, cnt }
    }
}

/// The runs that a list of elements stands for.
pub open spec fn runs_of(elems: Seq<CigarElem>) -> Seq<Run> {
    elems.map_values(|e: CigarElem| e@)
}

impl View for Cigar {
    type V = Seq<Run>;

    open spec fn view(&self) -> Seq<Run> {
        runs_of(self.ops@)
    }
}

/// Takes every item that an iterator yields, in order.
pub(crate) fn collect<T>(items: impl Iterator<Item = T>) -> (taken: Vec<T>)
    requires
        items.obeys_prophetic_iter_laws(),
        items.decrease() is Some,
    ensures
        taken@ == items.remaining(),
{
    let mut rest = items;
    let mut taken: Vec<T> = Vec::new();
    loop
        invariant
            rest.obeys_prophetic_iter_laws(),
            rest.decrease() is Some,
            taken@ + rest.remaining() == items.remaining(),
        decreases rest.decrease()->0,
    {
        match rest.next() {
            Some(item) => {
                taken.push(item);
            },
            None => {
                return taken;
            },
        }
    }
}

impl Cigar {
    /// The single operations of this alignment.
    pub open spec fn unrolled(&self) -> Seq<CigarOp> {
        unroll(self@)
    }

    /// The position that this alignment ends at.
    pub open spec fn end(&self) -> (int, int) {
        walk(self.unrolled())
    }

    /// Tells whether every run holds at least one operation.
    pub fn is_valid(&self) -> (b: bool)
        ensures
            b == valid(self@),
    {
        let mut i: usize = 0;
        while i < self.ops.len()
            invariant
                i <= self.ops.len(),
                forall|j: int| 0 <= j < i ==> (#[trigger] self@[j]).1 >= 1,
            decreases self.ops.len() - i,
        {
            if self.ops[i].cnt < 1 {
                assert(self@[i as int].1 < 1);
                return false;
            }
            i += 1;
        }
        true
    }

    /// Tells whether the runs are canonical: each holds at least one
    /// operation, and none holds the operation of the run before it.
    pub fn is_canonical(&self) -> (b: bool)
        ensures
            b == canonical(self@),
    {
        if !self.is_valid() {
            return false;
        }
        let mut i: usize = 1;
        while i < self.ops.len()
            invariant
                1 <= i,
                valid(self@),
                forall|j: int| 0 <= j < i - 1 && j < self@.len() - 1 ==> (#[trigger] self@[j]).0
                    != self@[j + 1].0,
            decreases self.ops.len() - i,
        {
            if self.ops[i - 1].op == self.ops[i].op {
                assert(self@[i as int - 1].0 == self@[i as int - 1 + 1].0);
                return false;
            }
            i += 1;
        }
        true
    }

    /// Groups a list of single operations into runs: consecutive equal
    /// operations are counted together, and nothing is reordered.
    pub fn from_ops(ops: impl Iterator<Item = CigarOp>) -> (c: Cigar)
        requires
            ops.obeys_prophetic_iter_laws(),
            ops.decrease() is Some,
            ops.remaining().len() <= i32::MAX,
        ensures
            c@ == group(ops.remaining()),
            canonical(c@),
            c.unrolled() == ops.remaining(),
    {
        let ops = collect(ops);
        let runs = run_lengths(ops.as_slice());
        let mut elems: Vec<CigarElem> = Vec::new();
        let mut i: usize = 0;
        while i < runs.len()
            invariant
                i <= runs.len(),
                ops@.len() <= i32::MAX,
                unroll(lengths(runs@)) == ops@,
                runs_of(elems@) == lengths(runs@).take(i as int),
            decreases runs.len() - i,
        {
            let (op, n) = runs[i];
            proof {
                lemma_offset_step(lengths(runs@), i as int);
            }
            elems.push(CigarElem { op, cnt: n as I });
            i += 1;
        }
        proof {
            let found = lengths(runs@);
            lemma_group_unroll(found);
            lemma_coalesce_canonical(found);
        }
        Cigar { ops: elems }
    }

    /// Appends one operation, counting it with the last run where that holds
    /// the same operation.
    pub fn push(&mut self, op: CigarOp)
        requires
            counts_fit(push_run(old(self)@, (op, 1))),
        ensures
            final(self)@ == push_run(old(self)@, (op, 1)),
            valid(old(self)@) ==> final(self).unrolled() == old(self).unrolled().push(op),
            canonical(old(self)@) ==> canonical(final(self)@),
    {
        proof {
            if valid(self@) {
                lemma_unroll_push_op(self@, op);
            }
        }
        self.push_elem(CigarElem { op, cnt: 1 });
    }

    /// Appends a run, merging it into the last run where that holds the same
    /// operation.
    pub fn push_elem(&mut self, e: CigarElem)
        requires
            counts_fit(push_run(old(self)@, e@)),
        ensures
            final(self)@ == push_run(old(self)@, e@),
            canonical(old(self)@) && e.cnt >= 1 ==> canonical(final(self)@),
    {
        let n = self.ops.len();
        if n > 0 {
            let last = self.ops[n - 1];
            if last.op == e.op {
                proof {
                    let merged = push_run(self@, e@);
                    assert(merged[n - 1] == (e.op, last.cnt + e.cnt));
                }
                self.ops[n - 1] = CigarElem { op: e.op, cnt: last.cnt + e.cnt };
                assert(self@ =~= push_run(old(self)@, e@));
                return ;
            }
        }
        self.ops.push(e);
        assert(self@ =~= push_run(old(self)@, e@));
    }

    /// Appends a run of matches.
    pub fn push_matches(&mut self, cnt: I)
        requires
            counts_fit(push_run(old(self)@, (CigarOp::Match, cnt as int))),
        ensures
            final(self)@ == push_run(old(self)@, (CigarOp::Match, cnt as int)),
            canonical(old(self)@) && cnt >= 1 ==> canonical(final(self)@),
    {
        self.push_elem(CigarElem { op: CigarOp::Match, cnt });
    }
}

} // verus!
