//! The textual form of an alignment: runs written as a count and a character,
//! one after another.

use crate::cigar::{
    runs_of, Cigar, CigarElem, CigarOp, Run, BYTE_ALIGNED, BYTE_DEL, BYTE_INS, BYTE_MATCH, BYTE_SUB,
};
use crate::model::{
    canonical, coalesce, counts_fit, group, lemma_coalesce, lemma_coalesce_canonical,
    lemma_coalesce_fits, lemma_coalesce_grows, lemma_group, lemma_unit_runs, point_fits, span,
    unroll, valid, walk,
};
use crate::resolve::{matches_in_bounds, resolve_ops, resolved};
use crate::trusted::string_from_utf8;
use crate::I;
use vstd::prelude::*;
use vstd::string::StringSliceAdditionalSpecFns;
use vstd::utf8::{
    decode_utf8, encode_utf8, encode_utf8_decode_utf8, encode_utf8_valid_utf8,
    is_ascii_chars_encode_utf8, valid_utf8,
};

verus! {

/// The byte `0`, the first of the ten digits.
pub const BYTE_ZERO: u8 = 48;

/// The byte `9`, the last of the ten digits.
pub const BYTE_NINE: u8 = 57;

/// Whether a byte of text is a decimal digit.
pub open spec fn is_digit(b: u8) -> bool {
    BYTE_ZERO <= b <= BYTE_NINE
}

/// Whether every byte of a text is a decimal digit.
pub open spec fn all_digits(d: Seq<u8>) -> bool {
    forall|i: int| 0 <= i < d.len() ==> is_digit(#[trigger] d[i])
}

/// The number that a text of digits is the decimal notation of.
pub open spec fn dec_value(d: Seq<u8>) -> int
    decreases d.len(),
{
    if d.len() == 0 {
        0
    } else {
        dec_value(d.drop_last()) * 10 + (d.last() - BYTE_ZERO)
    }
}

/// The count that the digits before an operation stand for: one where there
/// is no digit.
pub open spec fn count_of(d: Seq<u8>) -> int {
    if d.len() == 0 {
        1
    } else {
        dec_value(d)
    }
}

/// Where the digits start that end just before the index `end`.
pub open spec fn digits_start(s: Seq<u8>, end: int) -> int
    decreases end,
{
    if 0 < end <= s.len() && is_digit(s[end - 1]) {
        digits_start(s, end - 1)
    } else {
        end
    }
}

/// The digits that end before an index start at or before it.
pub proof fn lemma_digits_start_bounds(s: Seq<u8>, end: int)
    requires
        0 <= end <= s.len(),
    ensures
        0 <= digits_start(s, end) <= end,
    decreases end,
{
    if 0 < end && is_digit(s[end - 1]) {
        lemma_digits_start_bounds(s, end - 1);
    }
}

/// The runs that a text holds, as written: the text is split after each byte
/// that is no digit; that byte gives the operation, and the digits before it
/// the count.
pub open spec fn tokens(s: Seq<u8>) -> Seq<Run>
    decreases s.len(),
    via tokens_decreases
{
    if s.len() == 0 {
        Seq::empty()
    } else {
        let t = digits_start(s, s.len() - 1);
        tokens(s.take(t)).push(
            (CigarOp::spec_from(s.last()), count_of(s.subrange(t, s.len() - 1))),
        )
    }
}

#[via_fn]
proof fn tokens_decreases(s: Seq<u8>) {
    if s.len() > 0 {
        lemma_digits_start_bounds(s, s.len() - 1);
    }
}

/// Whether a text is made of runs: every byte is a digit or stands for an
/// operation, the text does not end in a digit, and the digits before an
/// operation, where there are any, are the decimal notation of a count from
/// one up to the largest that a run can hold.
pub open spec fn well_formed(s: Seq<u8>) -> bool {
    &&& forall|i: int| 0 <= i < s.len() ==> is_digit(#[trigger] s[i]) || CigarOp::is_op_byte(s[i])
    &&& s.len() > 0 ==> !is_digit(s.last())
    &&& forall|i: int|
        0 <= i < s.len() && !is_digit(#[trigger] s[i]) ==> 1 <= count_of(
            s.subrange(digits_start(s, i), i),
        ) <= i32::MAX
}

/// Where only digits lie between `t` and `end`, and none just before `t`,
/// the digits before `end` start at `t`.
pub proof fn lemma_digits_start(s: Seq<u8>, t: int, end: int)
    requires
        0 <= t <= end <= s.len(),
        t == 0 || !is_digit(s[t - 1]),
        forall|j: int| t <= j < end ==> is_digit(#[trigger] s[j]),
    ensures
        digits_start(s, end) == t,
    decreases end - t,
{
    if t < end {
        lemma_digits_start(s, t, end - 1);
    }
}

/// One more digit multiplies the number by ten and adds the digit.
pub proof fn lemma_dec_value_step(s: Seq<u8>, t: int, i: int)
    requires
        0 <= t <= i < s.len(),
    ensures
        dec_value(s.subrange(t, i + 1)) == dec_value(s.subrange(t, i)) * 10 + (s[i] - BYTE_ZERO),
{
    assert(s.subrange(t, i + 1).drop_last() =~= s.subrange(t, i));
}

/// A text of digits stands for a number that is not negative.
pub proof fn lemma_dec_value_not_negative(d: Seq<u8>)
    requires
        all_digits(d),
    ensures
        0 <= dec_value(d),
    decreases d.len(),
{
    if d.len() > 0 {
        lemma_dec_value_not_negative(d.drop_last());
    }
}

/// In a well-formed text, the digits of a count read so far stand for a
/// number that a run can hold.
pub proof fn lemma_digits_bounded(s: Seq<u8>, t: int, i: int)
    requires
        well_formed(s),
        0 <= t <= i < s.len(),
        t == 0 || !is_digit(s[t - 1]),
        forall|j: int| t <= j <= i ==> is_digit(#[trigger] s[j]),
    ensures
        0 <= dec_value(s.subrange(t, i + 1)) <= i32::MAX,
    decreases s.len() - i,
{
    let e = i + 1;
    if is_digit(s[e]) {
        lemma_digits_bounded(s, t, e);
        lemma_dec_value_step(s, t, e);
    } else {
        lemma_digits_start(s, t, e);
    }
}

/// After a byte that is no digit, the runs of a text are those before the
/// digits of that byte, and the run that the digits and the byte stand for.
pub proof fn lemma_tokens_step(s: Seq<u8>, t: int, i: int)
    requires
        0 <= t <= i < s.len(),
        t == 0 || !is_digit(s[t - 1]),
        forall|j: int| t <= j < i ==> is_digit(#[trigger] s[j]),
    ensures
        tokens(s.take(i + 1)) == tokens(s.take(t)).push(
            (CigarOp::spec_from(s[i]), count_of(s.subrange(t, i))),
        ),
{
    let p = s.take(i + 1);
    lemma_digits_start(p, t, i);
    assert(p.take(t) =~= s.take(t));
    assert(p.subrange(t, i) =~= s.subrange(t, i));
}

/// Splits a well-formed text into the runs it holds, as written.
pub(crate) fn tokenize(s: &[u8]) -> (toks: Vec<CigarElem>)
    requires
        well_formed(s@),
    ensures
        runs_of(toks@) == tokens(s@),
{
    let mut toks: Vec<CigarElem> = Vec::new();
    let mut cnt: I = 0;
    let mut digits = false;
    let ghost mut t: int = 0;
    let mut i: usize = 0;
    while i < s.len()
        invariant
            0 <= t <= i <= s.len(),
            well_formed(s@),
            t == 0 || !is_digit(s@[t - 1]),
            forall|j: int| t <= j < i ==> is_digit(#[trigger] s@[j]),
            digits == (t < i),
            cnt == dec_value(s@.subrange(t, i as int)),
            0 <= cnt,
            runs_of(toks@) == tokens(s@.take(t)),
        decreases s.len() - i,
    {
        let b = s[i];
        if BYTE_ZERO <= b && b <= BYTE_NINE {
            proof {
                lemma_digits_bounded(s@, t, i as int);
                lemma_dec_value_step(s@, t, i as int);
            }
            cnt = cnt * 10 + (b - BYTE_ZERO) as I;
            digits = true;
        } else {
            let n = if digits {
                cnt
            } else {
                1
            };
            proof {
                lemma_tokens_step(s@, t, i as int);
            }
            toks.push(CigarElem { op: CigarOp::from(b), cnt: n });
            proof {
                t = i as int + 1;
            }
            cnt = 0;
            digits = false;
        }
        i += 1;
    }
    proof {
        assert(s@.take(s@.len() as int) =~= s@);
    }
    toks
}

/// The decimal notation of a number that is not negative.
pub open spec fn decimal(n: int) -> Seq<u8>
    decreases n,
{
    if n < 10 {
        seq![(BYTE_ZERO + n) as u8]
    } else {
        decimal(n / 10).push((BYTE_ZERO + n % 10) as u8)
    }
}

/// The decimal notation of a number is made of digits, and stands for that
/// number.
pub proof fn lemma_decimal(n: int)
    requires
        n >= 0,
    ensures
        decimal(n).len() > 0,
        all_digits(decimal(n)),
        dec_value(decimal(n)) == n,
    decreases n,
{
    if n < 10 {
        assert(dec_value(decimal(n).drop_last()) == 0);
    } else {
        lemma_decimal(n / 10);
        assert(decimal(n).drop_last() =~= decimal(n / 10));
    }
}

/// The text of a list of runs: for each run its count in decimal notation and
/// the byte of its operation.
pub open spec fn text_of(runs: Seq<Run>) -> Seq<u8>
    decreases runs.len(),
{
    if runs.len() == 0 {
        Seq::empty()
    } else {
        text_of(runs.drop_last()) + decimal(runs.last().1).push(runs.last().0.spec_byte())
    }
}

/// The short text of a list of runs: as the text, but a run of one operation
/// is written without its count.
pub open spec fn short_text_of(runs: Seq<Run>) -> Seq<u8>
    decreases runs.len(),
{
    if runs.len() == 0 {
        Seq::empty()
    } else if runs.last().1 == 1 {
        short_text_of(runs.drop_last()).push(runs.last().0.spec_byte())
    } else {
        short_text_of(runs.drop_last()) + decimal(runs.last().1).push(runs.last().0.spec_byte())
    }
}

/// The characters that the bytes of a text in ASCII stand for.
pub open spec fn chars_of(bytes: Seq<u8>) -> Seq<char> {
    Seq::new(bytes.len(), |i: int| bytes[i] as char)
}

/// Whether every byte of a text is one of ASCII.
pub open spec fn is_ascii_bytes(bytes: Seq<u8>) -> bool {
    forall|i: int| 0 <= i < bytes.len() ==> #[trigger] bytes[i] < 128
}

/// Appends the decimal notation of a number.
fn push_decimal(out: &mut Vec<u8>, n: I)
    requires
        n >= 0,
    ensures
        final(out)@ == old(out)@ + decimal(n as int),
    decreases n,
{
    if n >= 10 {
        push_decimal(out, n / 10);
    }
    out.push(BYTE_ZERO + (n % 10) as u8);
}

/// Bytes of ASCII are valid UTF-8 and encode one character each.
pub proof fn lemma_ascii_utf8(bytes: Seq<u8>)
    requires
        is_ascii_bytes(bytes),
    ensures
        valid_utf8(bytes),
        decode_utf8(bytes) == chars_of(bytes),
        encode_utf8(chars_of(bytes)) == bytes,
{
    let chars = chars_of(bytes);
    is_ascii_chars_encode_utf8(chars);
    assert(encode_utf8(chars) =~= bytes);
    encode_utf8_valid_utf8(chars);
    encode_utf8_decode_utf8(chars);
}

/// The text of valid runs, long or short, is made of bytes of ASCII.
pub proof fn lemma_text_ascii(runs: Seq<Run>)
    requires
        valid(runs),
    ensures
        is_ascii_bytes(text_of(runs)),
        is_ascii_bytes(short_text_of(runs)),
    decreases runs.len(),
{
    if runs.len() > 0 {
        lemma_text_ascii(runs.drop_last());
        lemma_decimal(runs.last().1);
    }
}

/// The `i`-th run adds its count and the byte of its operation to the text.
pub proof fn lemma_text_step(runs: Seq<Run>, i: int)
    requires
        0 <= i < runs.len(),
    ensures
        text_of(runs.take(i + 1)) == text_of(runs.take(i)) + decimal(runs[i].1).push(
            runs[i].0.spec_byte(),
        ),
        short_text_of(runs.take(i + 1)) == if runs[i].1 == 1 {
            short_text_of(runs.take(i)).push(runs[i].0.spec_byte())
        } else {
            short_text_of(runs.take(i)) + decimal(runs[i].1).push(runs[i].0.spec_byte())
        },
{
    assert(runs.take(i + 1).drop_last() =~= runs.take(i));
}

impl Cigar {
    /// Writes this alignment as text: each run as its count and the
    /// character of its operation.
    pub fn to_string(&self) -> (s: String)
        requires
            valid(self@),
        ensures
            s@ == chars_of(text_of(self@)),
    {
        let mut out: Vec<u8> = Vec::new();
        let mut i: usize = 0;
        while i < self.ops.len()
            invariant
                i <= self.ops.len(),
                valid(self@),
                out@ == text_of(self@.take(i as int)),
            decreases self.ops.len() - i,
        {
            let el = self.ops[i];
            proof {
                lemma_text_step(self@, i as int);
            }
            push_decimal(&mut out, el.cnt);
            out.push(el.op.to_byte());
            i += 1;
        }
        proof {
            assert(self@.take(self@.len() as int) =~= self@);
            lemma_text_ascii(self@);
            lemma_ascii_utf8(out@);
        }
        string_from_utf8(out).unwrap()
    }

    /// Writes this alignment as short text: as [`Cigar::to_string`], but a
    /// run of one operation is written without its count.
    pub fn to_short_string(&self) -> (s: String)
        requires
            valid(self@),
        ensures
            s@ == chars_of(short_text_of(self@)),
    {
        let mut out: Vec<u8> = Vec::new();
        let mut i: usize = 0;
        while i < self.ops.len()
            invariant
                i <= self.ops.len(),
                valid(self@),
                out@ == short_text_of(self@.take(i as int)),
            decreases self.ops.len() - i,
        {
            let el = self.ops[i];
            proof {
                lemma_text_step(self@, i as int);
            }
            if el.cnt != 1 {
                push_decimal(&mut out, el.cnt);
            }
            out.push(el.op.to_byte());
            i += 1;
        }
        proof {
            assert(self@.take(self@.len() as int) =~= self@);
            lemma_text_ascii(self@);
            lemma_ascii_utf8(out@);
        }
        string_from_utf8(out).unwrap()
    }
}

/// The digits before an index are the same in a text and in each of its
/// beginnings that reaches the index.
pub proof fn lemma_digits_start_take(s: Seq<u8>, m: int, i: int)
    requires
        0 <= i <= m <= s.len(),
    ensures
        digits_start(s.take(m), i) == digits_start(s, i),
    decreases i,
{
    if 0 < i && is_digit(s[i - 1]) {
        lemma_digits_start_take(s, m, i - 1);
    }
}

/// The digits that end before an index have no digit before them.
pub proof fn lemma_digits_start_edge(s: Seq<u8>, end: int)
    requires
        0 <= end <= s.len(),
    ensures
        digits_start(s, end) == 0 || !is_digit(s[digits_start(s, end) - 1]),
        forall|j: int| digits_start(s, end) <= j < end ==> is_digit(#[trigger] s[j]),
    decreases end,
{
    if 0 < end && is_digit(s[end - 1]) {
        lemma_digits_start_edge(s, end - 1);
    }
}

/// A well-formed text cut where a run starts is well-formed.
pub proof fn lemma_well_formed_take(s: Seq<u8>, t: int)
    requires
        well_formed(s),
        0 <= t <= s.len(),
        t == 0 || !is_digit(s[t - 1]),
    ensures
        well_formed(s.take(t)),
{
    let p = s.take(t);
    assert forall|i: int| 0 <= i < p.len() && !is_digit(#[trigger] p[i]) implies 1 <= count_of(
        p.subrange(digits_start(p, i), i),
    ) <= i32::MAX by {
        lemma_digits_start_take(s, t, i);
        lemma_digits_start_bounds(s, i);
        assert(p.subrange(digits_start(p, i), i) =~= s.subrange(digits_start(s, i), i));
    }
}

/// The runs of a well-formed text are valid, with counts that a run can hold.
pub proof fn lemma_tokens_valid(s: Seq<u8>)
    requires
        well_formed(s),
    ensures
        valid(tokens(s)),
        counts_fit(tokens(s)),
    decreases s.len(),
{
    if s.len() > 0 {
        let t = digits_start(s, s.len() - 1);
        lemma_digits_start_bounds(s, s.len() - 1);
        lemma_digits_start_edge(s, s.len() - 1);
        lemma_well_formed_take(s, t);
        lemma_tokens_valid(s.take(t));
    }
}

/// Whether a byte of text stands for an operation.
fn is_op(b: u8) -> (r: bool)
    ensures
        r == CigarOp::is_op_byte(b),
{
    b == BYTE_MATCH || b == BYTE_ALIGNED || b == BYTE_SUB || b == BYTE_INS || b == BYTE_DEL
}

/// Tells whether a text is well-formed.
pub fn is_well_formed(s: &[u8]) -> (b: bool)
    ensures
        b == well_formed(s@),
{
    let mut cnt: I = 0;
    let mut digits = false;
    let ghost mut t: int = 0;
    let mut i: usize = 0;
    while i < s.len()
        invariant
            0 <= t <= i <= s.len(),
            t == 0 || !is_digit(s@[t - 1]),
            forall|j: int| t <= j < i ==> is_digit(#[trigger] s@[j]),
            digits == (t < i),
            cnt == dec_value(s@.subrange(t, i as int)),
            0 <= cnt,
            forall|j: int| 0 <= j < i ==> is_digit(#[trigger] s@[j]) || CigarOp::is_op_byte(s@[j]),
            forall|j: int|
                0 <= j < i && !is_digit(#[trigger] s@[j]) ==> 1 <= count_of(
                    s@.subrange(digits_start(s@, j), j),
                ) <= i32::MAX,
        decreases s.len() - i,
    {
        let b = s[i];
        if BYTE_ZERO <= b && b <= BYTE_NINE {
            let next: i64 = cnt as i64 * 10 + (b - BYTE_ZERO) as i64;
            proof {
                lemma_dec_value_step(s@, t, i as int);
            }
            if next > i32::MAX as i64 {
                proof {
                    if well_formed(s@) {
                        lemma_digits_bounded(s@, t, i as int);
                    }
                }
                return false;
            }
            cnt = next as I;
            digits = true;
        } else if is_op(b) {
            proof {
                lemma_digits_start(s@, t, i as int);
            }
            if digits && cnt == 0 {
                return false;
            }
            proof {
                t = i as int + 1;
            }
            cnt = 0;
            digits = false;
        } else {
            return false;
        }
        i += 1;
    }
    !digits
}

/// The operations that the bytes of a text without counts stand for.
pub open spec fn text_ops(s: Seq<u8>) -> Seq<CigarOp> {
    Seq::new(s.len(), |i: int| CigarOp::spec_from(s[i]))
}

/// Whether a text is made of bytes that stand for operations, without counts.
pub open spec fn all_op_bytes(s: Seq<u8>) -> bool {
    forall|i: int| 0 <= i < s.len() ==> CigarOp::is_op_byte(#[trigger] s[i])
}

impl Cigar {
    /// Reads an alignment from its text. Neighbouring runs of the same
    /// operation are merged: their counts add up.
    pub fn from_string(s: &str) -> (c: Cigar)
        requires
            s.spec_bytes().len() > 0,
            well_formed(s.spec_bytes()),
            counts_fit(coalesce(tokens(s.spec_bytes()))),
        ensures
            c@ == coalesce(tokens(s.spec_bytes())),
            canonical(c@),
    {
        let toks = tokenize(s.as_bytes());
        let ghost runs = runs_of(toks@);
        let mut c = Cigar { ops: Vec::new() };
        let mut i: usize = 0;
        proof {
            lemma_tokens_valid(s.spec_bytes());
        }
        while i < toks.len()
            invariant
                i <= toks.len(),
                runs == runs_of(toks@),
                valid(runs),
                counts_fit(coalesce(runs)),
                c@ == coalesce(runs.take(i as int)),
            decreases toks.len() - i,
        {
            proof {
                assert(runs.take(i as int + 1).drop_last() =~= runs.take(i as int));
                lemma_coalesce_fits(runs, i as int + 1);
            }
            c.push_elem(toks[i]);
            i += 1;
        }
        proof {
            assert(runs.take(runs.len() as int) =~= runs);
            lemma_coalesce(runs);
        }
        c
    }

    /// Reads an alignment from a text of which nothing is known: gives the
    /// alignment that [`Cigar::from_string`] gives where the text meets what
    /// that asks, and nothing where it does not.
    pub fn try_from_string(s: &str) -> (r: Option<Cigar>)
        ensures
            r is Some <==> s.spec_bytes().len() > 0 && well_formed(s.spec_bytes()) && counts_fit(
                coalesce(tokens(s.spec_bytes())),
            ),
            r matches Some(c) ==> c@ == coalesce(tokens(s.spec_bytes())) && canonical(c@),
    {
        let bytes = s.as_bytes();
        if bytes.len() == 0 || !is_well_formed(bytes) {
            return None;
        }
        let toks = tokenize(bytes);
        let ghost runs = runs_of(toks@);
        let mut c = Cigar { ops: Vec::new() };
        let mut i: usize = 0;
        proof {
            lemma_tokens_valid(s.spec_bytes());
        }
        while i < toks.len()
            invariant
                i <= toks.len(),
                runs == runs_of(toks@),
                runs == tokens(s.spec_bytes()),
                valid(runs),
                c@ == coalesce(runs.take(i as int)),
            decreases toks.len() - i,
        {
            let e = toks[i];
            let n = c.ops.len();
            proof {
                assert(runs.take(i as int + 1).drop_last() =~= runs.take(i as int));
                lemma_coalesce_grows(runs, i as int + 1);
            }
            if n > 0 && c.ops[n - 1].op == e.op && c.ops[n - 1].cnt > i32::MAX - e.cnt {
                return None;
            }
            c.push_elem(e);
            i += 1;
        }
        proof {
            assert(runs.take(runs.len() as int) =~= runs);
            lemma_coalesce(runs);
        }
        Some(c)
    }

    /// Reads an alignment from its text, with or without counts, and tells
    /// matches from substitutions by the bases of the two sequences; both
    /// `M` and `=` stand for a base that is one or the other. Consecutive
    /// equal operations are counted together.
    pub fn parse(s: &str, a: &[u8], b: &[u8]) -> (c: Cigar)
        requires
            s.spec_bytes().len() > 0,
            well_formed(s.spec_bytes()),
            point_fits(span(tokens(s.spec_bytes()))),
            matches_in_bounds(unroll(tokens(s.spec_bytes())), a@.len() as int, b@.len() as int),
        ensures
            c@ == resolved(tokens(s.spec_bytes()), a@, b@),
            canonical(c@),
    {
        let toks = tokenize(s.as_bytes());
        proof {
            lemma_tokens_valid(s.spec_bytes());
        }
        Cigar::resolve_elems(toks.as_slice(), a, b)
    }

    /// A simpler parsing function that only parses strings of characters
    /// `M=XID`, without preceding counts. Consecutive characters are
    /// grouped, and `M` and `=` chars are resolved into `=` and `X`.
    pub fn parse_without_counts(s: &str, a: &[u8], b: &[u8]) -> (c: Cigar)
        requires
            all_op_bytes(s.spec_bytes()),
            point_fits(walk(text_ops(s.spec_bytes()))),
            matches_in_bounds(text_ops(s.spec_bytes()), a@.len() as int, b@.len() as int),
        ensures
            c@ == group(resolve_ops(text_ops(s.spec_bytes()), a@, b@)),
            canonical(c@),
    {
        let bytes = s.as_bytes();
        let mut elems: Vec<CigarElem> = Vec::new();
        let mut i: usize = 0;
        while i < bytes.len()
            invariant
                i <= bytes.len(),
                all_op_bytes(bytes@),
                elems@.len() == i,
                forall|m: int|
                    0 <= m < i ==> (#[trigger] elems@[m]) == (CigarElem {
                        op: text_ops(bytes@)[m],
                        cnt: 1,
                    }),
            decreases bytes.len() - i,
        {
            elems.push(CigarElem { op: CigarOp::from(bytes[i]), cnt: 1 });
            i += 1;
        }
        proof {
            lemma_unit_runs(runs_of(elems@), text_ops(bytes@));
        }
        Cigar::resolve_elems(elems.as_slice(), a, b)
    }

    /// A simpler parsing function that only parses strings of characters
    /// `MXID`, without preceding counts. Consecutive characters are grouped.
    /// `M` chars are not resolved and taken to mean `=`.
    pub fn parse_without_resolving(s: &str) -> (c: Cigar)
        requires
            all_op_bytes(s.spec_bytes()),
            s.spec_bytes().len() <= i32::MAX,
        ensures
            c@ == group(text_ops(s.spec_bytes())),
            canonical(c@),
            c.unrolled() == text_ops(s.spec_bytes()),
    {
        let bytes = s.as_bytes();
        let ghost ops = text_ops(bytes@);
        let mut c = Cigar { ops: Vec::new() };
        let mut i: usize = 0;
        while i < bytes.len()
            invariant
                i <= bytes.len(),
                bytes@.len() <= i32::MAX,
                all_op_bytes(bytes@),
                ops == text_ops(bytes@),
                c@ == group(ops.take(i as int)),
            decreases bytes.len() - i,
        {
            proof {
                let longer = ops.take(i as int + 1);
                assert(longer.drop_last() =~= ops.take(i as int));
                lemma_group(longer);
            }
            c.push(CigarOp::from(bytes[i]));
            i += 1;
        }
        proof {
            assert(ops.take(ops.len() as int) =~= ops);
            lemma_group(ops);
        }
        c
    }
}

/// A well-formed text stays well-formed with one more run written after it,
/// and holds that run after the runs it held.
pub proof fn lemma_append_token(p: Seq<u8>, d: Seq<u8>, b: u8)
    requires
        well_formed(p),
        all_digits(d),
        1 <= count_of(d) <= i32::MAX,
        CigarOp::is_op_byte(b),
    ensures
        well_formed(p + d.push(b)),
        tokens(p + d.push(b)) == tokens(p).push((CigarOp::spec_from(b), count_of(d))),
{
    let s = p + d.push(b);
    let t = p.len() as int;
    let last = s.len() - 1;
    lemma_digits_start(s, t, last);
    assert(s.take(t) =~= p);
    assert(s.subrange(t, last) =~= d);
    assert forall|i: int| 0 <= i < s.len() && !is_digit(#[trigger] s[i]) implies 1 <= count_of(
        s.subrange(digits_start(s, i), i),
    ) <= i32::MAX by {
        if i < t {
            lemma_digits_start_take(s, t, i);
            lemma_digits_start_bounds(s, i);
            assert(s.subrange(digits_start(s, i), i) =~= p.subrange(digits_start(p, i), i));
        }
    }
}

/// Reading the text of runs gives the runs back: the text of valid runs
/// with counts that a run can hold, long or short, is well-formed and holds
/// just these runs.
pub proof fn lemma_text_round_trip(runs: Seq<Run>)
    requires
        valid(runs),
        counts_fit(runs),
    ensures
        well_formed(text_of(runs)),
        tokens(text_of(runs)) == runs,
        well_formed(short_text_of(runs)),
        tokens(short_text_of(runs)) == runs,
        runs.len() > 0 ==> text_of(runs).len() > 0 && short_text_of(runs).len() > 0,
    decreases runs.len(),
{
    if runs.len() > 0 {
        let init = runs.drop_last();
        let (op, n) = runs.last();
        lemma_text_round_trip(init);
        lemma_decimal(n);
        lemma_append_token(text_of(init), decimal(n), op.spec_byte());
        if n == 1 {
            lemma_append_token(short_text_of(init), Seq::empty(), op.spec_byte());
            assert(short_text_of(init) + Seq::<u8>::empty().push(op.spec_byte())
                =~= short_text_of(init).push(op.spec_byte()));
        } else {
            lemma_append_token(short_text_of(init), decimal(n), op.spec_byte());
        }
    }
}

/// Writing an alignment and reading the text back gives the alignment with
/// its runs merged, and so the alignment itself where it is canonical.
pub proof fn lemma_write_read(runs: Seq<Run>)
    requires
        valid(runs),
        counts_fit(runs),
    ensures
        coalesce(tokens(text_of(runs))) == coalesce(runs),
        coalesce(tokens(short_text_of(runs))) == coalesce(runs),
        canonical(runs) ==> coalesce(tokens(text_of(runs))) == runs,
        canonical(runs) ==> coalesce(tokens(short_text_of(runs))) == runs,
{
    lemma_text_round_trip(runs);
    if canonical(runs) {
        lemma_coalesce_canonical(runs);
    }
}

} // verus!
