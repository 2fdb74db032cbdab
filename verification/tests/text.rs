use pa_types::text::is_well_formed;
use pa_types::{Cigar, CigarElem, CigarOp};

#[test]
fn well_formed_texts() {
    assert!(is_well_formed(b""));
    assert!(is_well_formed(b"24="));
    assert!(is_well_formed(b"2=3I1X"));
    assert!(is_well_formed(b"=XIDDD"));
    assert!(is_well_formed(b"5M2X3M"));
    assert!(is_well_formed(b"007X"));
    assert!(is_well_formed(b"2147483647D"));
    assert!(is_well_formed(b"00000000000000000002147483647D"));
}

#[test]
fn texts_that_are_not_well_formed() {
    assert!(!is_well_formed(b"12"));
    assert!(!is_well_formed(b"2=3"));
    assert!(!is_well_formed(b"0="));
    assert!(!is_well_formed(b"2=000I"));
    assert!(!is_well_formed(b"2Q"));
    assert!(!is_well_formed(b"2 ="));
    assert!(!is_well_formed(b"2x"));
    assert!(!is_well_formed(b"-2="));
    assert!(!is_well_formed(b"2147483648D"));
    assert!(!is_well_formed(b"99999999999999999999999999D"));
    assert!(!is_well_formed(&[0xc3, 0xa9]));
}

#[test]
fn try_from_string_reads_what_from_string_reads() {
    let c = Cigar::try_from_string("2=3I1X");
    assert_eq!(c, Some(Cigar::from_string("2=3I1X")));
    let d = Cigar::try_from_string("2147483646=1=").unwrap();
    assert_eq!(d.ops, vec![CigarElem::new(CigarOp::Match, 2147483647)]);
}

#[test]
fn try_from_string_gives_nothing_for_other_texts() {
    assert_eq!(Cigar::try_from_string(""), None);
    assert_eq!(Cigar::try_from_string("12"), None);
    assert_eq!(Cigar::try_from_string("0="), None);
    assert_eq!(Cigar::try_from_string("3Z"), None);
    assert_eq!(Cigar::try_from_string("2147483648="), None);
    assert_eq!(Cigar::try_from_string("2147483647=1="), None);
    assert_eq!(Cigar::try_from_string("1I2147483647=1=1D"), None);
}

#[test]
fn valid_and_canonical_runs() {
    let c = Cigar::from_string("2=3I1X");
    assert!(c.is_valid());
    assert!(c.is_canonical());
    let empty = Cigar { ops: vec![] };
    assert!(empty.is_valid());
    assert!(empty.is_canonical());
    let unmerged = Cigar {
        ops: vec![CigarElem::new(CigarOp::Match, 2), CigarElem::new(CigarOp::Match, 3)],
    };
    assert!(unmerged.is_valid());
    assert!(!unmerged.is_canonical());
    let hollow = Cigar {
        ops: vec![CigarElem::new(CigarOp::Match, 2), CigarElem::new(CigarOp::Ins, 0)],
    };
    assert!(!hollow.is_valid());
    assert!(!hollow.is_canonical());
}
