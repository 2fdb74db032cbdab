use pa_types::{Cigar, CigarElem, CigarOp, CigarOpChars, Pos};

fn elems(c: &Cigar) -> Vec<(CigarOp, i32)> {
    c.ops.iter().map(|e| (e.op, e.cnt)).collect()
}

#[test]
fn to_string() {
    let c = Cigar {
        ops: vec![
            CigarElem {
                op: CigarOp::Ins,
                cnt: 1,
            },
            CigarElem {
                op: CigarOp::Match,
                cnt: 2,
            },
        ],
    };
    assert_eq!(c.to_short_string(), "I2=");
    assert_eq!(c.to_string(), "1I2=");
}

#[test]
fn from_path() {
    let c = Cigar::from_path(
        b"aaa",
        b"aabc",
        &vec![Pos(0, 0), Pos(1, 1), Pos(2, 2), Pos(3, 3), Pos(3, 4)],
    );
    assert_eq!(c.to_short_string(), "2=XI");
    assert_eq!(c.to_string(), "2=1X1I");
}

#[test]
fn from_path_gives_merged_runs() {
    let c = Cigar::from_path(
        b"aaa",
        b"aabc",
        &vec![Pos(0, 0), Pos(1, 1), Pos(2, 2), Pos(3, 3), Pos(3, 4)],
    );
    assert_eq!(
        elems(&c),
        vec![(CigarOp::Match, 2), (CigarOp::Sub, 1), (CigarOp::Ins, 1)]
    );
}

#[test]
fn from_path_of_the_start_alone_is_empty() {
    let c = Cigar::from_path(b"", b"", &vec![Pos(0, 0)]);
    assert!(c.ops.is_empty());
}

#[test]
fn from_path_with_deletions() {
    let c = Cigar::from_path(
        b"acgt",
        b"at",
        &vec![Pos(0, 0), Pos(1, 1), Pos(2, 1), Pos(3, 1), Pos(4, 2)],
    );
    assert_eq!(elems(&c), vec![(CigarOp::Match, 1), (CigarOp::Del, 2), (CigarOp::Match, 1)]);
}

#[test]
fn from_path_then_to_path_is_the_path() {
    let path = vec![Pos(0, 0), Pos(1, 1), Pos(2, 2), Pos(3, 3), Pos(3, 4)];
    let c = Cigar::from_path(b"aaa", b"aabc", &path);
    assert_eq!(c.to_path(), path);
}

#[test]
fn parse_one_run() {
    let c = Cigar::from_string("24=");
    assert_eq!(elems(&c), vec![(CigarOp::Match, 24)]);
}

#[test]
fn parse_runs_with_counts() {
    let c = Cigar::from_string("2=3I1X");
    assert_eq!(elems(&c), vec![(CigarOp::Match, 2), (CigarOp::Ins, 3), (CigarOp::Sub, 1)]);
}

#[test]
fn parse_runs_without_counts() {
    let c = Cigar::from_string("=XIDDD");
    assert_eq!(
        elems(&c),
        vec![(CigarOp::Match, 1), (CigarOp::Sub, 1), (CigarOp::Ins, 1), (CigarOp::Del, 3)]
    );
    let d = Cigar::parse_without_resolving("=XIDDD");
    assert_eq!(elems(&d), elems(&c));
}

#[test]
fn parse_merges_neighbouring_runs() {
    let c = Cigar::from_string("2=3=I4I");
    assert_eq!(elems(&c), vec![(CigarOp::Match, 5), (CigarOp::Ins, 5)]);
}

#[test]
fn parse_takes_m_for_a_match() {
    let c = Cigar::from_string("3M2D");
    assert_eq!(elems(&c), vec![(CigarOp::Match, 3), (CigarOp::Del, 2)]);
}

#[test]
fn parse_accepts_leading_zeros_and_the_largest_count() {
    let c = Cigar::from_string("007X2147483647D");
    assert_eq!(elems(&c), vec![(CigarOp::Sub, 7), (CigarOp::Del, 2147483647)]);
}

#[test]
fn parse_resolves_matches() {
    let c = Cigar::parse("5M2X3M", b"aaaaaccaaa", b"aabaaggaac");
    assert_eq!(
        elems(&c),
        vec![
            (CigarOp::Match, 2),
            (CigarOp::Sub, 1),
            (CigarOp::Match, 2),
            (CigarOp::Sub, 2),
            (CigarOp::Match, 2),
            (CigarOp::Sub, 1)
        ]
    );
}

#[test]
fn parse_without_counts_resolves_matches() {
    let c = Cigar::parse_without_counts("MM=IMD", b"acgt", b"atgat");
    assert_eq!(
        elems(&c),
        vec![
            (CigarOp::Match, 1),
            (CigarOp::Sub, 1),
            (CigarOp::Match, 1),
            (CigarOp::Ins, 1),
            (CigarOp::Match, 1),
            (CigarOp::Del, 1)
        ]
    );
}

#[test]
fn parse_without_resolving_groups() {
    let c = Cigar::parse_without_resolving("MM=XXIIID");
    assert_eq!(
        elems(&c),
        vec![(CigarOp::Match, 3), (CigarOp::Sub, 2), (CigarOp::Ins, 3), (CigarOp::Del, 1)]
    );
    assert!(Cigar::parse_without_resolving("").ops.is_empty());
}

#[test]
fn written_text_reads_back() {
    let c = Cigar {
        ops: vec![
            CigarElem::new(CigarOp::Match, 12),
            CigarElem::new(CigarOp::Ins, 1),
            CigarElem::new(CigarOp::Sub, 100),
            CigarElem::new(CigarOp::Del, 2147483647),
        ],
    };
    assert_eq!(c.to_string(), "12=1I100X2147483647D");
    assert_eq!(c.to_short_string(), "12=I100X2147483647D");
    assert_eq!(Cigar::from_string(&c.to_string()), c);
    assert_eq!(Cigar::from_string(&c.to_short_string()), c);
}

#[test]
fn written_text_reads_back_merged() {
    let c = Cigar {
        ops: vec![
            CigarElem::new(CigarOp::Match, 2),
            CigarElem::new(CigarOp::Match, 3),
            CigarElem::new(CigarOp::Del, 1),
        ],
    };
    assert_eq!(c.to_string(), "2=3=1D");
    let back = Cigar::from_string(&c.to_string());
    assert_eq!(elems(&back), vec![(CigarOp::Match, 5), (CigarOp::Del, 1)]);
}

#[test]
fn text_of_the_empty_alignment_is_empty() {
    let c = Cigar { ops: vec![] };
    assert_eq!(c.to_string(), "");
    assert_eq!(c.to_short_string(), "");
}

#[test]
fn push_merges_equal_operations() {
    let mut c = Cigar { ops: vec![] };
    c.push(CigarOp::Match);
    c.push(CigarOp::Match);
    c.push(CigarOp::Ins);
    c.push(CigarOp::Match);
    assert_eq!(elems(&c), vec![(CigarOp::Match, 2), (CigarOp::Ins, 1), (CigarOp::Match, 1)]);
}

#[test]
fn push_elem_merges_equal_runs() {
    let mut c = Cigar { ops: vec![] };
    c.push_elem(CigarElem::new(CigarOp::Del, 3));
    c.push_elem(CigarElem::new(CigarOp::Del, 4));
    c.push_elem(CigarElem::new(CigarOp::Sub, 1));
    assert_eq!(elems(&c), vec![(CigarOp::Del, 7), (CigarOp::Sub, 1)]);
}

#[test]
fn push_matches_merges_with_matches_only() {
    let mut c = Cigar { ops: vec![] };
    c.push_matches(3);
    c.push_matches(4);
    c.push(CigarOp::Sub);
    c.push_matches(2);
    assert_eq!(elems(&c), vec![(CigarOp::Match, 7), (CigarOp::Sub, 1), (CigarOp::Match, 2)]);
}

#[test]
fn pushed_operations_give_the_path() {
    let mut c = Cigar { ops: vec![] };
    c.push(CigarOp::Match);
    c.push(CigarOp::Del);
    c.push(CigarOp::Ins);
    c.push(CigarOp::Sub);
    assert_eq!(c.to_path(), vec![Pos(0, 0), Pos(1, 1), Pos(2, 1), Pos(2, 2), Pos(3, 3)]);
}

#[test]
fn from_ops_takes_any_iterator() {
    let c = Cigar::from_ops("==X".bytes().map(CigarOp::from));
    assert_eq!(elems(&c), vec![(CigarOp::Match, 2), (CigarOp::Sub, 1)]);
}

#[test]
fn from_ops_groups_without_reordering() {
    let ops = vec![
        CigarOp::Match,
        CigarOp::Match,
        CigarOp::Ins,
        CigarOp::Match,
        CigarOp::Del,
        CigarOp::Del,
        CigarOp::Del,
    ];
    let c = Cigar::from_ops(ops.into_iter());
    assert_eq!(
        elems(&c),
        vec![(CigarOp::Match, 2), (CigarOp::Ins, 1), (CigarOp::Match, 1), (CigarOp::Del, 3)]
    );
    assert!(Cigar::from_ops(Vec::new().into_iter()).ops.is_empty());
}

#[test]
fn to_path_of_runs() {
    let c = Cigar::from_string("2=1D2I");
    assert_eq!(
        c.to_path(),
        vec![Pos(0, 0), Pos(1, 1), Pos(2, 2), Pos(3, 2), Pos(3, 3), Pos(3, 4)]
    );
    assert_eq!(Cigar { ops: vec![] }.to_path(), vec![Pos(0, 0)]);
}

#[test]
fn resolve_matches_splits_and_merges() {
    let ops = vec![
        CigarElem::new(CigarOp::Match, 3),
        CigarElem::new(CigarOp::Sub, 1),
        CigarElem::new(CigarOp::Ins, 2),
        CigarElem::new(CigarOp::Match, 1),
    ];
    let c = Cigar::resolve_matches(ops.into_iter(), b"acgtt", b"aggcaat");
    assert_eq!(
        elems(&c),
        vec![
            (CigarOp::Match, 1),
            (CigarOp::Sub, 1),
            (CigarOp::Match, 1),
            (CigarOp::Sub, 1),
            (CigarOp::Ins, 2),
            (CigarOp::Match, 1)
        ]
    );
}

#[test]
fn resolve_matches_merges_a_failed_match_into_a_substitution() {
    let ops = vec![CigarElem::new(CigarOp::Match, 2), CigarElem::new(CigarOp::Sub, 2)];
    let c = Cigar::resolve_matches(ops.into_iter(), b"acgt", b"atca");
    assert_eq!(elems(&c), vec![(CigarOp::Match, 1), (CigarOp::Sub, 3)]);
}

#[test]
fn resolve_matches_twice_changes_nothing_more() {
    let ops = vec![
        CigarElem::new(CigarOp::Match, 4),
        CigarElem::new(CigarOp::Del, 1),
        CigarElem::new(CigarOp::Match, 2),
    ];
    let once = Cigar::resolve_matches(ops.into_iter(), b"acgtaca", b"aggtcc");
    let twice = Cigar::resolve_matches(once.ops.clone().into_iter(), b"acgtaca", b"aggtcc");
    assert_eq!(elems(&once), vec![
        (CigarOp::Match, 1),
        (CigarOp::Sub, 1),
        (CigarOp::Match, 2),
        (CigarOp::Del, 1),
        (CigarOp::Match, 1),
        (CigarOp::Sub, 1)
    ]);
    assert_eq!(twice, once);
}

#[test]
fn operations_and_their_characters() {
    assert_eq!(CigarOp::Match.to_char(), '=');
    assert_eq!(CigarOp::Sub.to_char(), 'X');
    assert_eq!(CigarOp::Ins.to_char(), 'I');
    assert_eq!(CigarOp::Del.to_char(), 'D');
    assert_eq!(CigarOp::Match.to_byte(), b'=');
    assert_eq!(CigarOp::from(b'='), CigarOp::Match);
    assert_eq!(CigarOp::from(b'M'), CigarOp::Match);
    assert_eq!(CigarOp::from(b'X'), CigarOp::Sub);
    assert_eq!(CigarOp::from(b'I'), CigarOp::Ins);
    assert_eq!(CigarOp::from(b'D'), CigarOp::Del);
}

#[test]
fn operations_and_their_steps() {
    assert_eq!(CigarOp::Match.delta(), Pos(1, 1));
    assert_eq!(CigarOp::Sub.delta(), Pos(1, 1));
    assert_eq!(CigarOp::Del.delta(), Pos(1, 0));
    assert_eq!(CigarOp::Ins.delta(), Pos(0, 1));
}

#[test]
fn new_element_holds_its_fields() {
    let e = CigarElem::new(CigarOp::Ins, 7);
    assert_eq!(e.op, CigarOp::Ins);
    assert_eq!(e.cnt, 7);
}

#[test]
fn char_pairs_of_each_operation() {
    let c = Cigar::from_string("2=1X1D2I1=");
    let pairs = c.to_char_pairs(b"acgta", b"actcca");
    assert_eq!(
        pairs,
        vec![
            CigarOpChars::Match(b'a'),
            CigarOpChars::Match(b'c'),
            CigarOpChars::Sub(b'g', b't'),
            CigarOpChars::Del(b't'),
            CigarOpChars::Ins(b'c'),
            CigarOpChars::Ins(b'c'),
            CigarOpChars::Match(b'a'),
        ]
    );
}

#[test]
fn char_pairs_of_the_empty_alignment() {
    let c = Cigar { ops: vec![] };
    assert!(c.to_char_pairs(b"acgt", b"").is_empty());
}
