//! Cost models for alignments and the score models derived from them.

use crate::cigar::{CigarOp, Run};
use crate::model::valid;
use crate::I;
use vstd::arithmetic::div_mod::lemma_fundamental_div_mod;
use vstd::prelude::*;

verus! {

/// The non-negative cost of an alignment.
pub type Cost = i32;

/// The score of an alignment. Can be positive or negative.
pub type Score = i32;

/// The costs of the edit operations. A gap of length `len` costs
/// `open + len * extend`; a matched base costs nothing.
#[derive(Debug, PartialEq, Eq, Structural, Clone, Copy)]
pub struct CostModel {
    /// The cost of one substituted base.
    pub sub: Cost,
    /// The cost charged once per gap. Zero for linear gap costs.
    pub open: Cost,
    /// The cost of each base in a gap.
    pub extend: Cost,
}

impl CostModel {
    /// All three costs are non-negative.
    pub open spec fn valid(self) -> bool {
        &&& self.sub >= 0
        &&& self.open >= 0
        &&& self.extend >= 0
    }

    /// The unit cost model: every substituted, inserted or deleted base costs one.
    pub open spec fn spec_unit() -> CostModel {
        CostModel { sub: 1, open: 0, extend: 1 }
    }

    /// The cost of a gap of `len` bases, as a mathematical integer.
    pub open spec fn indel_cost(self, len: int) -> int {
        self.open + len * self.extend
    }

    /// The running cost of a gap after `k` of its bases: nothing before the gap
    /// is opened, and the cost of a gap of `k` bases after that.
    pub open spec fn partial_indel_cost(self, k: int) -> int {
        if k <= 0 {
            0
        } else {
            self.indel_cost(k)
        }
    }

    /// The cost of the first `k` operations of a run of `op`: nothing for
    /// matches, the substitution cost for each substituted base, and for a gap
    /// its opening cost and the extension cost of each of its bases so far.
    pub open spec fn run_cost(self, op: CigarOp, k: int) -> int {
        match op {
            CigarOp::Match => 0,
            CigarOp::Sub => k * self.sub,
            CigarOp::Ins => self.partial_indel_cost(k),
            CigarOp::Del => self.partial_indel_cost(k),
        }
    }

    /// The cost of a list of runs: each run is charged once, as a whole.
    pub open spec fn cost(self, runs: Seq<Run>) -> int
        decreases runs.len(),
    {
        if runs.len() == 0 {
            0
        } else {
            self.cost(runs.drop_last()) + self.run_cost(runs.last().0, runs.last().1)
        }
    }

    /// Whether a gap of `len` bases can be costed in machine integers.
    pub open spec fn indel_cost_fits(self, len: int) -> bool {
        &&& i32::MIN <= len * self.extend <= i32::MAX
        &&& i32::MIN <= self.indel_cost(len) <= i32::MAX
    }

    /// The unit cost model.
    pub fn unit() -> (cm: Self)
        ensures
            cm == Self::spec_unit(),
            cm.valid(),
    {
        Self { sub: 1, open: 0, extend: 1 }
    }

    /// Whether this is the unit cost model.
    pub fn is_unit(&self) -> (b: bool)
        ensures
            b == (*self == Self::spec_unit()),
    {
        self.sub == 1 && self.open == 0 && self.extend == 1
    }

    /// A model with linear gap costs: a gap costs `indel` for each of its
    /// bases and nothing for its opening.
    pub fn linear(sub: Cost, indel: Cost) -> (cm: Self)
        ensures
            cm == (CostModel { sub, open: 0, extend: indel }),
    {
        Self { sub, open: 0, extend: indel }
    }

    /// Whether gaps cost nothing but their bases.
    pub fn is_linear(&self) -> (b: bool)
        ensures
            b == (self.open == 0),
    {
        self.open == 0
    }

    /// A model with affine gap costs: a gap costs `open` once and `extend`
    /// for each of its bases.
    pub fn affine(sub: Cost, open: Cost, extend: Cost) -> (cm: Self)
        ensures
            cm == (CostModel { sub, open, extend }),
    {
        Self { sub, open, extend }
    }

    /// Whether opening a gap costs something: so it is for every valid model
    /// that is not linear.
    pub fn is_affine(&self) -> (b: bool)
        ensures
            b == (self.open > 0),
            self.valid() ==> b == (self.open != 0),
    {
        self.open > 0
    }

    /// The cost of a substitution.
    pub fn sub(&self) -> (c: Cost)
        ensures
            c == self.sub,
    {
        self.sub
    }

    /// The cost of a substitution, or `None` if not allowed.
    pub fn maybe_sub(&self) -> (c: Option<Cost>)
        ensures
            c == Some(self.sub),
    {
        Some(self.sub)
    }

    /// The cost of an insertion of given length.
    pub fn ins(&self, len: I) -> (c: Cost)
        requires
            self.indel_cost_fits(len as int),
        ensures
            c == self.indel_cost(len as int),
    {
        self.open + len * self.extend
    }

    /// The cost of a deletion of given length.
    pub fn del(&self, len: I) -> (c: Cost)
        requires
            self.indel_cost_fits(len as int),
        ensures
            c == self.indel_cost(len as int),
    {
        self.open + len * self.extend
    }

    /// The cost of the first `k` operations of a run of `op`.
    pub(crate) fn cost_of_run(&self, op: CigarOp, k: I) -> (c: Cost)
        requires
            self.valid(),
            k >= 0,
            self.run_cost(op, k as int) <= i32::MAX,
        ensures
            c == self.run_cost(op, k as int),
    {
        proof {
            assert(0 <= k * self.sub) by (nonlinear_arith)
                requires
                    k >= 0,
                    self.sub >= 0,
            ;
            assert(0 <= k * self.extend) by (nonlinear_arith)
                requires
                    k >= 0,
                    self.extend >= 0,
            ;
        }
        match op {
            CigarOp::Match => 0,
            CigarOp::Sub => k * self.sub,
            CigarOp::Ins => if k == 0 {
                0
            } else {
                self.ins(k)
            },
            CigarOp::Del => if k == 0 {
                0
            } else {
                self.del(k)
            },
        }
    }

    /// With costs that are not negative, a run costs more the longer it is.
    pub proof fn lemma_run_cost_grows(self, op: CigarOp, j: int, k: int)
        requires
            self.valid(),
            0 <= j <= k,
        ensures
            0 <= self.run_cost(op, j) <= self.run_cost(op, k),
    {
        assert(0 <= j * self.sub <= k * self.sub) by (nonlinear_arith)
            requires
                0 <= j <= k,
                self.sub >= 0,
        ;
        assert(0 <= j * self.extend <= k * self.extend) by (nonlinear_arith)
            requires
                0 <= j <= k,
                self.extend >= 0,
        ;
    }

    /// The `i`-th run adds its cost to the cost of the runs before it.
    pub proof fn lemma_cost_step(self, runs: Seq<Run>, i: int)
        requires
            0 <= i < runs.len(),
        ensures
            self.cost(runs.take(i + 1)) == self.cost(runs.take(i)) + self.run_cost(
                runs[i].0,
                runs[i].1,
            ),
    {
        assert(runs.take(i + 1).drop_last() =~= runs.take(i));
    }

    /// With costs that are not negative, the cost of the first `j` runs is
    /// neither negative nor more than the cost of all runs.
    pub proof fn lemma_cost_take(self, runs: Seq<Run>, j: int)
        requires
            self.valid(),
            valid(runs),
            0 <= j <= runs.len(),
        ensures
            0 <= self.cost(runs.take(j)) <= self.cost(runs),
        decreases runs.len() - j,
    {
        if j == runs.len() {
            assert(runs.take(j) =~= runs);
            self.lemma_cost_not_negative(runs);
        } else {
            self.lemma_cost_take(runs, j + 1);
            self.lemma_cost_step(runs, j);
            self.lemma_cost_not_negative(runs.take(j));
        }
    }

    /// With costs that are not negative, no list of valid runs has a negative
    /// cost.
    pub proof fn lemma_cost_not_negative(self, runs: Seq<Run>)
        requires
            self.valid(),
            valid(runs),
        ensures
            0 <= self.cost(runs),
        decreases runs.len(),
    {
        if runs.len() > 0 {
            self.lemma_cost_not_negative(runs.drop_last());
        }
    }
}

/// How many bases a list of runs substitutes.
pub open spec fn sub_bases(runs: Seq<Run>) -> int
    decreases runs.len(),
{
    if runs.len() == 0 {
        0
    } else if runs.last().0 == CigarOp::Sub {
        sub_bases(runs.drop_last()) + runs.last().1
    } else {
        sub_bases(runs.drop_last())
    }
}

/// Whether an operation is part of a gap: an insertion or a deletion.
pub open spec fn is_gap(op: CigarOp) -> bool {
    op == CigarOp::Ins || op == CigarOp::Del
}

/// How many runs of a list are gaps.
pub open spec fn gap_runs(runs: Seq<Run>) -> int
    decreases runs.len(),
{
    if runs.len() == 0 {
        0
    } else if is_gap(runs.last().0) {
        gap_runs(runs.drop_last()) + 1
    } else {
        gap_runs(runs.drop_last())
    }
}

/// How many bases the gaps of a list of runs hold.
pub open spec fn gap_bases(runs: Seq<Run>) -> int
    decreases runs.len(),
{
    if runs.len() == 0 {
        0
    } else if is_gap(runs.last().0) {
        gap_bases(runs.drop_last()) + runs.last().1
    } else {
        gap_bases(runs.drop_last())
    }
}

impl CostModel {
    /// The cost of valid runs adds up: the substitution cost for each
    /// substituted base, the opening cost for each gap, and the extension
    /// cost for each base in a gap.
    pub proof fn lemma_cost_sum(self, runs: Seq<Run>)
        requires
            valid(runs),
        ensures
            self.cost(runs) == sub_bases(runs) * self.sub + gap_runs(runs) * self.open + gap_bases(
                runs,
            ) * self.extend,
        decreases runs.len(),
    {
        if runs.len() > 0 {
            let init = runs.drop_last();
            let n = runs.last().1;
            self.lemma_cost_sum(init);
            assert((sub_bases(init) + n) * self.sub == sub_bases(init) * self.sub + n * self.sub)
                by (nonlinear_arith);
            assert((gap_runs(init) + 1) * self.open == gap_runs(init) * self.open + self.open)
                by (nonlinear_arith);
            assert((gap_bases(init) + n) * self.extend == gap_bases(init) * self.extend + n
                * self.extend) by (nonlinear_arith);
        }
    }

    /// Valid runs of matches and substitutions only cost the substitution
    /// cost for each substituted base.
    pub proof fn lemma_cost_without_gaps(self, runs: Seq<Run>)
        requires
            valid(runs),
            forall|i: int| 0 <= i < runs.len() ==> !is_gap(#[trigger] runs[i].0),
        ensures
            self.cost(runs) == sub_bases(runs) * self.sub,
        decreases runs.len(),
    {
        if runs.len() > 0 {
            let init = runs.drop_last();
            let n = runs.last().1;
            self.lemma_cost_without_gaps(init);
            assert((sub_bases(init) + n) * self.sub == sub_bases(init) * self.sub + n * self.sub)
                by (nonlinear_arith);
        }
    }

    /// One gap among valid runs of matches costs its opening and the
    /// extension cost for each of its bases.
    pub proof fn lemma_cost_one_gap(self, runs: Seq<Run>, i: int)
        requires
            valid(runs),
            0 <= i < runs.len(),
            is_gap(runs[i].0),
            forall|j: int|
                0 <= j < runs.len() && j != i ==> (#[trigger] runs[j]).0 == CigarOp::Match,
        ensures
            self.cost(runs) == self.open + runs[i].1 * self.extend,
        decreases runs.len(),
    {
        let init = runs.drop_last();
        if i == runs.len() - 1 {
            self.lemma_cost_without_gaps(init);
            lemma_no_sub_bases(init);
        } else {
            self.lemma_cost_one_gap(init, i);
        }
    }
}

/// Runs without a substitution substitute no base.
pub proof fn lemma_no_sub_bases(runs: Seq<Run>)
    requires
        forall|i: int| 0 <= i < runs.len() ==> (#[trigger] runs[i]).0 != CigarOp::Sub,
    ensures
        sub_bases(runs) == 0,
    decreases runs.len(),
{
    if runs.len() > 0 {
        lemma_no_sub_bases(runs.drop_last());
    }
}

/// A match/mismatch/gap scoring scheme derived from a [`CostModel`], for aligners
/// that maximise a score. Every base of either sequence earns an offset of one
/// (so a matched pair earns two), and costs are scaled by `factor` before they
/// are subtracted.
#[derive(Debug, Eq, PartialEq, Structural, Clone, Copy)]
pub struct ScoreModel {
    /// The score of a matched pair of bases.
    pub match_: Score,
    /// The score of a substituted pair of bases.
    pub sub: Score,
    /// The score of opening a gap.
    pub open: Score,
    /// The score of each base in a gap.
    pub extend: Score,
    /// The number of score units that one unit of cost is worth.
    pub factor: i32,
}

impl ScoreModel {
    /// The factor by which costs are scaled: one where the costs of a
    /// substitution and of a gap base are large enough to outweigh the offsets
    /// as they are, three for a substitution cost of one, and two otherwise.
    pub open spec fn spec_factor(cm: CostModel) -> int {
        if cm.sub > 2 && cm.extend > 1 {
            1
        } else if cm.sub == 1 {
            3
        } else {
            2
        }
    }

    /// Whether the scaled costs of `cm` can be negated in machine integers.
    pub open spec fn costs_fit(cm: CostModel) -> bool {
        &&& cm.valid()
        &&& -cm.sub * Self::spec_factor(cm) >= i32::MIN
        &&& -cm.open * Self::spec_factor(cm) >= i32::MIN
        &&& -cm.extend * Self::spec_factor(cm) >= i32::MIN
    }

    /// The score of an alignment with `matches` matched bases, `subs`
    /// substituted bases, `gaps` gaps and `gap_bases` bases in those gaps.
    pub open spec fn score_of(self, matches: int, subs: int, gaps: int, gap_bases: int) -> int {
        matches * self.match_ + subs * self.sub + gaps * self.open + gap_bases * self.extend
    }

    /// What is left of the offsets earned along sequences whose lengths sum to
    /// `path_len` once the score of an alignment is taken away: the cost of
    /// the alignment, times the factor.
    pub open spec fn scaled_cost(score: int, path_len: int) -> int {
        path_len - score
    }

    /// The model that `cm` gives rise to, where its scaled costs fit.
    pub open spec fn spec_from_costs(cm: CostModel) -> ScoreModel {
        let factor = Self::spec_factor(cm);
        ScoreModel {
            match_: 2,
            sub: (2 - cm.sub * factor) as i32,
            open: (-cm.open * factor) as i32,
            extend: (1 - cm.extend * factor) as i32,
            factor: factor as i32,
        }
    }

    /// The score of an alignment gives its cost back: with the scores that a
    /// cost model gives rise to, the score of an alignment falls short of the
    /// offsets earned along it by its cost times the factor.
    pub proof fn lemma_score_gives_cost(
        cm: CostModel,
        matches: int,
        subs: int,
        gaps: int,
        gap_bases: int,
    )
        requires
            Self::costs_fit(cm),
        ensures
            Self::scaled_cost(
                Self::spec_from_costs(cm).score_of(matches, subs, gaps, gap_bases),
                2 * matches + 2 * subs + gap_bases,
            ) == Self::spec_factor(cm) * (subs * cm.sub + gaps * cm.open + gap_bases * cm.extend),
    {
        let f = Self::spec_factor(cm);
        assert(0 <= cm.sub * f && 0 <= cm.open * f && 0 <= cm.extend * f) by (nonlinear_arith)
            requires
                cm.valid(),
                1 <= f <= 3,
        ;
        assert(-cm.sub * f == -(cm.sub * f) && -cm.open * f == -(cm.open * f) && -cm.extend * f
            == -(cm.extend * f)) by (nonlinear_arith);
        assert(subs * (2 - cm.sub * f) == 2 * subs - f * (subs * cm.sub)) by (nonlinear_arith);
        assert(gaps * (-(cm.open * f)) == -(f * (gaps * cm.open))) by (nonlinear_arith);
        assert(gap_bases * (1 - cm.extend * f) == gap_bases - f * (gap_bases * cm.extend))
            by (nonlinear_arith);
        assert(f * (subs * cm.sub + gaps * cm.open + gap_bases * cm.extend) == f * (subs * cm.sub)
            + f * (gaps * cm.open) + f * (gap_bases * cm.extend)) by (nonlinear_arith);
    }

    /// The score model that a cost model gives rise to.
    pub fn from_costs(cm: CostModel) -> (sm: Self)
        requires
            Self::costs_fit(cm),
        ensures
            sm == Self::spec_from_costs(cm),
            sm.factor == Self::spec_factor(cm),
            sm.match_ == 2,
            sm.sub == 2 - cm.sub * sm.factor,
            sm.open == -cm.open * sm.factor,
            sm.extend == 1 - cm.extend * sm.factor,
    {
        let factor: i32;
        if cm.sub > 2 && cm.extend > 1 {
            factor = 1;
        } else if cm.sub == 1 {
            factor = 3;
        } else {
            factor = 2;
        }
        Self {
            match_: 2,
            sub: -cm.sub * factor + 2,
            open: -cm.open * factor,
            extend: -cm.extend * factor + 1,
            factor,
        }
    }

    /// The cost of a global alignment with the given score.
    pub fn global_cost(&self, score: Score, a_len: usize, b_len: usize) -> (cost: Cost)
        requires
            a_len + b_len <= i32::MAX,
            score > i32::MIN,
            Self::scaled_cost(score as int, a_len + b_len) <= i32::MAX,
            self.factor != 0,
            !(self.factor == -1 && Self::scaled_cost(score as int, a_len + b_len) == i32::MIN),
            Self::scaled_cost(score as int, a_len + b_len) % (self.factor as int) == 0,
        ensures
            cost * self.factor == Self::scaled_cost(score as int, a_len + b_len),
    {
        let path_len: i32 = (a_len + b_len) as i32;
        let s: i32 = -score + path_len;
        let cost: i32 = s / self.factor;
        proof {
            let f = self.factor as int;
            lemma_exact_quotient(s as int, f);
            lemma_exact_quotient(-s, f);
            if s >= 0 {
                assert(cost * f == f * (s as int / f)) by (nonlinear_arith)
                    requires
                        cost == s as int / f,
                ;
            } else {
                assert(cost * f == -(f * ((-s) / f))) by (nonlinear_arith)
                    requires
                        cost == -((-s) / f),
                ;
            }
        }
        cost
    }
}

/// Where `d` divides `x`, the quotient times `d` gives `x` back, the quotient
/// is no larger than `x` in magnitude, and `d` divides `-x` too.
proof fn lemma_exact_quotient(x: int, d: int)
    requires
        d != 0,
        x % d == 0 || (-x) % d == 0,
    ensures
        d * (x / d) == x,
        x % d == 0,
        x >= 0 ==> -x <= x / d <= x,
        x <= 0 ==> x <= x / d <= -x,
{
    lemma_fundamental_div_mod(x, d);
    lemma_fundamental_div_mod(-x, d);
    let q = x / d;
    let r = x % d;
    let q2 = (-x) / d;
    if r != 0 {
        let k = q + q2;
        assert(d * k == d * q + d * q2) by (nonlinear_arith)
            requires
                k == q + q2,
        ;
        assert(k != 0 ==> d * k >= d && d * k >= -d || d * k <= d && d * k <= -d)
            by (nonlinear_arith)
            requires
                d != 0,
        ;
    }
    assert(x >= 0 ==> -x <= q <= x) by (nonlinear_arith)
        requires
            d * q == x,
            d != 0,
    ;
    assert(x <= 0 ==> x <= q <= -x) by (nonlinear_arith)
        requires
            d * q == x,
            d != 0,
    ;
}

} // verus!
