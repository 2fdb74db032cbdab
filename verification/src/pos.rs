//! Positions in a pairwise alignment, with their partial and lexicographic orders.

use crate::I;
use core::cmp::Ordering;
use vstd::prelude::*;
use vstd::std_specs::cmp::PartialOrdSpecImpl;
use vstd::std_specs::convert::TryIntoSpec;
use vstd::std_specs::ops::{AddSpecImpl, SubSpecImpl};

verus! {

/// A position in a pairwise alignment: the number of bases consumed so far of
/// the reference and of the query.
///
/// An alignment starts at `(0, 0)` and ends at `(n, m)`.
#[derive(Debug, Clone, Copy, PartialEq, Eq, Structural, Hash)]
pub struct Pos(pub I, pub I);

impl View for Pos {
    type V = (int, int);

    open spec fn view(&self) -> (int, int) {
        (self.0 as int, self.1 as int)
    }
}

impl Default for Pos {
    fn default() -> (p: Self)
        ensures
            p == Pos(0, 0),
    {
        Pos(0, 0)
    }
}

/// The order of two coordinates.
pub open spec fn int_order(x: I, y: I) -> Ordering {
    if x < y {
        Ordering::Less
    } else if x == y {
        Ordering::Equal
    } else {
        Ordering::Greater
    }
}

fn order_of(x: I, y: I) -> (o: Ordering)
    ensures
        o == int_order(x, y),
{
    if x < y {
        Ordering::Less
    } else if x == y {
        Ordering::Equal
    } else {
        Ordering::Greater
    }
}

impl PartialOrdSpecImpl for Pos {
    open spec fn obeys_partial_cmp_spec() -> bool {
        true
    }

    /// The componentwise order: two positions compare as both of their
    /// components do, where these agree or one of them is equal, and not at
    /// all where one component is smaller and the other larger.
    open spec fn partial_cmp_spec(&self, other: &Pos) -> Option<Ordering> {
        let a = int_order(self.0, other.0);
        let b = int_order(self.1, other.1);
        if a == b {
            Some(a)
        } else if a == Ordering::Equal {
            Some(b)
        } else if b == Ordering::Equal {
            Some(a)
        } else {
            None
        }
    }
}

/// Partial ordering by
/// `(a, b) <= (c, d)` when `a <= c` and `b <= d`.
/// `(a, b) < (c, d)` when `a <= c` and `b <= d` and `a < c` or `b < d`.
impl PartialOrd for Pos {
    fn partial_cmp(&self, other: &Self) -> (r: Option<Ordering>) {
        let a = order_of(self.0, other.0);
        let b = order_of(self.1, other.1);
        match (a, b) {
            (Ordering::Less, Ordering::Less) => Some(Ordering::Less),
            (Ordering::Less, Ordering::Equal) => Some(Ordering::Less),
            (Ordering::Equal, Ordering::Less) => Some(Ordering::Less),
            (Ordering::Equal, Ordering::Equal) => Some(Ordering::Equal),
            (Ordering::Greater, Ordering::Greater) => Some(Ordering::Greater),
            (Ordering::Greater, Ordering::Equal) => Some(Ordering::Greater),
            (Ordering::Equal, Ordering::Greater) => Some(Ordering::Greater),
            _ => None,
        }
    }

    fn le(&self, other: &Self) -> (r: bool) {
        self.0 <= other.0 && self.1 <= other.1
    }
}

impl AddSpecImpl for Pos {
    open spec fn obeys_add_spec() -> bool {
        true
    }

    open spec fn add_req(self, rhs: Pos) -> bool {
        &&& i32::MIN <= self.0 + rhs.0 <= i32::MAX
        &&& i32::MIN <= self.1 + rhs.1 <= i32::MAX
    }

    open spec fn add_spec(self, rhs: Pos) -> Pos {
        Pos((self.0 + rhs.0) as I, (self.1 + rhs.1) as I)
    }
}

impl core::ops::Add for Pos {
    type Output = Pos;

    fn add(self, rhs: Pos) -> (r: Pos) {
        Pos(self.0 + rhs.0, self.1 + rhs.1)
    }
}

impl core::ops::AddAssign for Pos {
    fn add_assign(&mut self, rhs: Pos)
        requires
            i32::MIN <= old(self).0 + rhs.0 <= i32::MAX,
            i32::MIN <= old(self).1 + rhs.1 <= i32::MAX,
        ensures
            final(self).0 == old(self).0 + rhs.0,
            final(self).1 == old(self).1 + rhs.1,
    {
        self.0 = self.0 + rhs.0;
        self.1 = self.1 + rhs.1;
    }
}

impl SubSpecImpl for Pos {
    open spec fn obeys_sub_spec() -> bool {
        true
    }

    open spec fn sub_req(self, rhs: Pos) -> bool {
        &&& i32::MIN <= self.0 - rhs.0 <= i32::MAX
        &&& i32::MIN <= self.1 - rhs.1 <= i32::MAX
    }

    open spec fn sub_spec(self, rhs: Pos) -> Pos {
        Pos((self.0 - rhs.0) as I, (self.1 - rhs.1) as I)
    }
}

impl core::ops::Sub for Pos {
    type Output = Pos;

    fn sub(self, rhs: Pos) -> (r: Pos) {
        Pos(self.0 - rhs.0, self.1 - rhs.1)
    }
}

impl core::ops::SubAssign for Pos {
    fn sub_assign(&mut self, rhs: Pos)
        requires
            i32::MIN <= old(self).0 - rhs.0 <= i32::MAX,
            i32::MIN <= old(self).1 - rhs.1 <= i32::MAX,
        ensures
            final(self).0 == old(self).0 - rhs.0,
            final(self).1 == old(self).1 - rhs.1,
    {
        self.0 = self.0 - rhs.0;
        self.1 = self.1 - rhs.1;
    }
}

impl Pos {
    /// The start of an alignment.
    pub fn start() -> (p: Self)
        ensures
            p == Pos(0, 0),
    {
        Pos(0, 0)
    }

    /// The target of an alignment.
    pub fn target(a: &[u8], b: &[u8]) -> (p: Self)
        requires
            a.len() <= i32::MAX,
            b.len() <= i32::MAX,
        ensures
            p@ == (a@.len() as int, b@.len() as int),
    {
        Pos(a.len() as I, b.len() as I)
    }

    /// The diagonal of position `(i, j)` is `i-j`.
    pub fn diag(&self) -> (d: I)
        requires
            i32::MIN <= self.0 - self.1 <= i32::MAX,
        ensures
            d == self.0 - self.1,
    {
        self.0 - self.1
    }

    /// The anti diagonal of position `(i, j)` is `i+j`.
    pub fn anti_diag(&self) -> (d: I)
        requires
            i32::MIN <= self.0 + self.1 <= i32::MAX,
        ensures
            d == self.0 + self.1,
    {
        self.0 + self.1
    }

    /// Create a position from differently typed positions.
    pub fn from<T>(i: T, j: T) -> (p: Self) where
        T: TryInto<I>,
        <T as TryInto<I>>::Error: core::fmt::Debug,

        requires
            T::obeys_try_into_spec(),
            i.try_into_spec() is Ok,
            j.try_into_spec() is Ok,
        ensures
            Ok::<I, <T as TryInto<I>>::Error>(p.0) == i.try_into_spec(),
            Ok::<I, <T as TryInto<I>>::Error>(p.1) == j.try_into_spec(),
    {
        Pos(i.try_into().unwrap(), j.try_into().unwrap())
    }

    /// Mirror this position: `(i, j) -> (j, i)`.
    pub fn mirror(&self) -> (p: Pos)
        ensures
            p == Pos(self.1, self.0),
    {
        Pos(self.1, self.0)
    }
}

/// A small wrapper around [`Pos`] that is ordered lexicographically: by the
/// first coordinate, and by the second where the first ones are equal.
#[derive(Debug, Clone, Copy, PartialEq, Eq, Structural)]
pub struct LexPos(pub Pos);

impl LexPos {
    /// The lexicographic order of two positions.
    pub open spec fn lex_order(self, other: LexPos) -> Ordering {
        if self.0.0 == other.0.0 {
            int_order(self.0.1, other.0.1)
        } else {
            int_order(self.0.0, other.0.0)
        }
    }

    /// Compares two positions lexicographically. This order is total.
    pub fn cmp(&self, other: &Self) -> (r: Ordering)
        ensures
            r == self.lex_order(*other),
    {
        if self.0.0 == other.0.0 {
            order_of(self.0.1, other.0.1)
        } else {
            order_of(self.0.0, other.0.0)
        }
    }
}

impl PartialOrdSpecImpl for LexPos {
    open spec fn obeys_partial_cmp_spec() -> bool {
        true
    }

    open spec fn partial_cmp_spec(&self, other: &LexPos) -> Option<Ordering> {
        Some(self.lex_order(*other))
    }
}

impl PartialOrd for LexPos {
    fn partial_cmp(&self, other: &Self) -> (r: Option<Ordering>) {
        Some(self.cmp(other))
    }

    fn lt(&self, other: &Self) -> (r: bool) {
        self.0.0 < other.0.0 || (self.0.0 == other.0.0 && self.0.1 < other.0.1)
    }
}


} // verus!
