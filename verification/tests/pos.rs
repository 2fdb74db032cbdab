use pa_types::{seq_to_string, LexPos, Pos};
use std::cmp::Ordering;

#[test]
fn start_and_target() {
    assert_eq!(Pos::start(), Pos(0, 0));
    assert_eq!(Pos::default(), Pos(0, 0));
    assert_eq!(Pos::target(b"aaa", b"aabc"), Pos(3, 4));
    assert_eq!(Pos::target(b"", b""), Pos(0, 0));
}

#[test]
fn diagonals_and_mirror() {
    assert_eq!(Pos(5, 2).diag(), 3);
    assert_eq!(Pos(2, 5).diag(), -3);
    assert_eq!(Pos(5, 2).anti_diag(), 7);
    assert_eq!(Pos(5, 2).mirror(), Pos(2, 5));
}

#[test]
fn from_other_integers() {
    assert_eq!(Pos::from(3usize, 4usize), Pos(3, 4));
    assert_eq!(Pos::from(3u8, 4u8), Pos(3, 4));
    assert_eq!(Pos::from(-1i64, 7i64), Pos(-1, 7));
}

#[test]
fn sum_and_difference() {
    assert_eq!(Pos(1, 2) + Pos(10, 20), Pos(11, 22));
    assert_eq!(Pos(11, 22) - Pos(10, 20), Pos(1, 2));
    assert_eq!(Pos(3, 4) - Pos(3, 3), Pos(0, 1));
    let mut p = Pos(1, 2);
    p += Pos(10, 20);
    assert_eq!(p, Pos(11, 22));
    p -= Pos(1, 1);
    assert_eq!(p, Pos(10, 21));
}

#[test]
fn partial_order_by_both_coordinates() {
    assert_eq!(Pos(1, 2).partial_cmp(&Pos(1, 2)), Some(Ordering::Equal));
    assert_eq!(Pos(1, 2).partial_cmp(&Pos(2, 3)), Some(Ordering::Less));
    assert_eq!(Pos(1, 2).partial_cmp(&Pos(1, 3)), Some(Ordering::Less));
    assert_eq!(Pos(1, 2).partial_cmp(&Pos(2, 2)), Some(Ordering::Less));
    assert_eq!(Pos(2, 3).partial_cmp(&Pos(1, 2)), Some(Ordering::Greater));
    assert_eq!(Pos(2, 2).partial_cmp(&Pos(1, 2)), Some(Ordering::Greater));
    assert_eq!(Pos(1, 3).partial_cmp(&Pos(1, 2)), Some(Ordering::Greater));
    assert_eq!(Pos(1, 3).partial_cmp(&Pos(2, 2)), None);
    assert_eq!(Pos(2, 2).partial_cmp(&Pos(1, 3)), None);
    assert!(Pos(1, 2) <= Pos(1, 2));
    assert!(Pos(1, 2) <= Pos(3, 2));
    assert!(Pos(1, 2) < Pos(3, 2));
    assert!(!(Pos(1, 3) <= Pos(2, 2)));
    assert!(!(Pos(2, 2) <= Pos(1, 3)));
    assert!(!(Pos(1, 2) < Pos(1, 2)));
}

#[test]
fn lexicographic_order() {
    assert_eq!(LexPos(Pos(1, 3)).cmp(&LexPos(Pos(2, 2))), Ordering::Less);
    assert_eq!(LexPos(Pos(2, 2)).cmp(&LexPos(Pos(1, 3))), Ordering::Greater);
    assert_eq!(LexPos(Pos(1, 2)).cmp(&LexPos(Pos(1, 3))), Ordering::Less);
    assert_eq!(LexPos(Pos(1, 3)).cmp(&LexPos(Pos(1, 3))), Ordering::Equal);
    assert_eq!(LexPos(Pos(1, 3)).partial_cmp(&LexPos(Pos(2, 2))), Some(Ordering::Less));
    assert!(LexPos(Pos(1, 3)) < LexPos(Pos(2, 2)));
    assert!(!(LexPos(Pos(2, 2)) < LexPos(Pos(1, 3))));
    assert!(!(LexPos(Pos(1, 3)) < LexPos(Pos(1, 3))));
}

#[test]
fn sequence_as_string() {
    assert_eq!(seq_to_string(b"acgt"), "acgt");
    assert_eq!(seq_to_string(b""), "");
    assert_eq!(seq_to_string(&[0xc3, 0xa9, 0x41]), "\u{e9}A");
}
