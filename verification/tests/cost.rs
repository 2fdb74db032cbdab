use pa_types::{Cigar, CigarElem, CigarOp, CostModel, Pos, ScoreModel, VerifyError};

#[test]
fn unit_linear_and_affine_models() {
    let unit = CostModel::unit();
    assert_eq!((unit.sub, unit.open, unit.extend), (1, 0, 1));
    assert!(unit.is_unit());
    assert!(unit.is_linear());
    assert!(!unit.is_affine());
    let linear = CostModel::linear(2, 3);
    assert_eq!((linear.sub, linear.open, linear.extend), (2, 0, 3));
    assert!(!linear.is_unit());
    assert!(linear.is_linear());
    assert!(!linear.is_affine());
    let affine = CostModel::affine(1, 2, 1);
    assert_eq!((affine.sub, affine.open, affine.extend), (1, 2, 1));
    assert!(!affine.is_unit());
    assert!(!affine.is_linear());
    assert!(affine.is_affine());
    assert!(CostModel::linear(1, 1).is_unit());
}

#[test]
fn substitution_and_gap_costs() {
    let cm = CostModel::affine(4, 6, 2);
    assert_eq!(cm.sub(), 4);
    assert_eq!(cm.maybe_sub(), Some(4));
    assert_eq!(cm.ins(1), 8);
    assert_eq!(cm.ins(5), 16);
    assert_eq!(cm.del(1), 8);
    assert_eq!(cm.del(3), 12);
    assert_eq!(cm.ins(0), 6);
    assert_eq!(CostModel::unit().ins(7), 7);
}

#[test]
fn score_model_of_each_kind_of_cost_model() {
    let sm = ScoreModel::from_costs(CostModel::unit());
    assert_eq!((sm.match_, sm.sub, sm.open, sm.extend, sm.factor), (2, -1, 0, -2, 3));
    let sm = ScoreModel::from_costs(CostModel::affine(2, 3, 1));
    assert_eq!((sm.match_, sm.sub, sm.open, sm.extend, sm.factor), (2, -2, -6, -1, 2));
    let sm = ScoreModel::from_costs(CostModel::affine(4, 6, 2));
    assert_eq!((sm.match_, sm.sub, sm.open, sm.extend, sm.factor), (2, -2, -6, -1, 1));
    let sm = ScoreModel::from_costs(CostModel::affine(3, 1, 1));
    assert_eq!((sm.match_, sm.sub, sm.open, sm.extend, sm.factor), (2, -4, -2, -1, 2));
}

#[test]
fn global_cost_recovers_the_cost() {
    // Two matches, one substitution and one gap of three bases.
    let cm = CostModel::affine(2, 3, 1);
    let sm = ScoreModel::from_costs(cm);
    let score = 2 * sm.match_ + sm.sub + sm.open + 3 * sm.extend;
    assert_eq!(score, -7);
    assert_eq!(sm.global_cost(score, 6, 3), 8);
    let unit = ScoreModel::from_costs(CostModel::unit());
    assert_eq!(unit.global_cost(10, 5, 5), 0);
    assert_eq!(unit.global_cost(-2, 2, 2), 2);
}

#[test]
fn verify_gives_the_cost() {
    let c = Cigar::from_string("2=1X1I");
    assert_eq!(c.verify(&CostModel::unit(), b"aaa", b"aabc"), Ok(2));
    assert_eq!(c.verify(&CostModel::affine(3, 5, 2), b"aaa", b"aabc"), Ok(10));
}

#[test]
fn verify_costs_substitutions_by_the_base() {
    let c = Cigar::from_string("1=3X2=2X");
    let cm = CostModel::affine(7, 100, 100);
    assert_eq!(c.verify(&cm, b"acgtacgt", b"atcaacaa"), Ok(35));
}

#[test]
fn verify_costs_a_gap_once() {
    let c = Cigar::from_string("2=5I1=");
    let cm = CostModel::affine(1, 4, 3);
    assert_eq!(c.verify(&cm, b"acg", b"actttttt"), Err(VerifyError::MatchMismatch));
    assert_eq!(c.verify(&cm, b"acg", b"actttttg"), Ok(19));
    let d = Cigar::from_string("4D");
    assert_eq!(d.verify(&cm, b"acgt", b""), Ok(16));
}

#[test]
fn verify_of_the_empty_alignment() {
    let c = Cigar { ops: vec![] };
    assert_eq!(c.verify(&CostModel::unit(), b"", b""), Ok(0));
    assert_eq!(c.verify(&CostModel::unit(), b"a", b""), Err(VerifyError::LengthMismatch));
}

#[test]
fn verify_finds_a_match_of_different_bases() {
    let c = Cigar::from_string("3=");
    assert_eq!(c.verify(&CostModel::unit(), b"aca", b"aga"), Err(VerifyError::MatchMismatch));
}

#[test]
fn verify_finds_a_substitution_of_equal_bases() {
    let c = Cigar::from_string("1=2X");
    assert_eq!(c.verify(&CostModel::unit(), b"aca", b"agg"), Ok(2));
    assert_eq!(c.verify(&CostModel::unit(), b"acg", b"agg"), Err(VerifyError::SubEquality));
}

#[test]
fn verify_finds_a_wrong_length() {
    let c = Cigar::from_string("2=");
    assert_eq!(c.verify(&CostModel::unit(), b"aaa", b"aa"), Err(VerifyError::LengthMismatch));
    assert_eq!(c.verify(&CostModel::unit(), b"aa", b"aaa"), Err(VerifyError::LengthMismatch));
    let d = Cigar::from_string("2=3I");
    assert_eq!(d.verify(&CostModel::unit(), b"aa", b"aa"), Err(VerifyError::LengthMismatch));
}

#[test]
fn verify_beyond_the_sequences() {
    // Past the end of both sequences nothing differs, so a match passes there
    // and a substitution fails; past the end of one only, a match fails.
    let m = Cigar::from_string("3=");
    assert_eq!(m.verify(&CostModel::unit(), b"aa", b"aa"), Err(VerifyError::LengthMismatch));
    assert_eq!(m.verify(&CostModel::unit(), b"aaa", b"aa"), Err(VerifyError::MatchMismatch));
    let x = Cigar::from_string("2=1X");
    assert_eq!(x.verify(&CostModel::unit(), b"aa", b"aa"), Err(VerifyError::SubEquality));
}

#[test]
fn verify_reports_the_first_fault() {
    let c = Cigar::from_string("1X1=");
    assert_eq!(c.verify(&CostModel::unit(), b"ac", b"ag"), Err(VerifyError::SubEquality));
    let d = Cigar::from_string("1=1X");
    assert_eq!(d.verify(&CostModel::unit(), b"ca", b"ga"), Err(VerifyError::MatchMismatch));
}

#[test]
fn path_with_costs_of_each_operation() {
    let c = Cigar {
        ops: vec![
            CigarElem::new(CigarOp::Match, 2),
            CigarElem::new(CigarOp::Sub, 2),
            CigarElem::new(CigarOp::Ins, 3),
            CigarElem::new(CigarOp::Del, 1),
            CigarElem::new(CigarOp::Match, 1),
        ],
    };
    let trace = c.to_path_with_costs(CostModel::affine(3, 5, 2));
    assert_eq!(
        trace,
        vec![
            (Pos(0, 0), 0),
            (Pos(1, 1), 0),
            (Pos(2, 2), 0),
            (Pos(3, 3), 3),
            (Pos(4, 4), 6),
            (Pos(4, 5), 13),
            (Pos(4, 6), 15),
            (Pos(4, 7), 17),
            (Pos(5, 7), 24),
            (Pos(6, 8), 24),
        ]
    );
}

#[test]
fn path_with_costs_ends_at_the_verified_cost() {
    let c = Cigar::from_string("2=1X1I");
    let cm = CostModel::affine(3, 5, 2);
    let trace = c.to_path_with_costs(cm);
    assert_eq!(trace.len(), 5);
    assert_eq!(trace[0], (Pos(0, 0), 0));
    assert_eq!(trace[4], (Pos(3, 4), 10));
    assert_eq!(c.verify(&cm, b"aaa", b"aabc"), Ok(10));
    let positions: Vec<Pos> = trace.iter().map(|t| t.0).collect();
    assert_eq!(positions, c.to_path());
}

#[test]
fn path_with_costs_of_the_empty_alignment() {
    let c = Cigar { ops: vec![] };
    assert_eq!(c.to_path_with_costs(CostModel::unit()), vec![(Pos(0, 0), 0)]);
}
