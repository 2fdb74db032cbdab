//! The calls into code that is not verified here: two iterator adaptors of
//! `itertools` and one conversion of `std`, each behind a contract that is
//! believed, not proved.

use crate::cigar::{CigarOp, Run};
use crate::model::{canonical, unroll};
use crate::pos::Pos;
use itertools::Itertools;
use vstd::prelude::*;
use vstd::utf8::{decode_utf8, valid_utf8};

verus! {

/// Runs with machine counts as runs of the model.
pub open spec fn lengths(runs: Seq<(CigarOp, usize)>) -> Seq<Run> {
    runs.map_values(|r: (CigarOp, usize)| (r.0, r.1 as int))
}

/// `Itertools::group_by`, with each operation as its own key, and the number
/// of operations that each group yields.
///
/// Believed of it: consecutive equal operations, and only these, share a
/// group. So no group is empty, neighbouring groups differ in their
/// operation, and the groups one after another hold the operations given.
#[verifier::external_body]
pub(crate) fn run_lengths(ops: &[CigarOp]) -> (runs: Vec<(CigarOp, usize)>)
    ensures
        canonical(lengths(runs@)),
        unroll(lengths(runs@)) == ops@,
{
    ops.iter().group_by(|&&op| op).into_iter().map(|(op, run)| (op, run.count())).collect()
}

/// `Itertools::tuple_windows` for pairs: each position of a path together
/// with the one that follows it.
///
/// Believed of it: a path of `n` positions gives the `n - 1` pairs of
/// neighbours in order, and a path of no position gives none.
#[verifier::external_body]
pub(crate) fn steps(path: &[Pos]) -> (pairs: Vec<(Pos, Pos)>)
    ensures
        pairs@.len() == if path@.len() > 0 {
            path@.len() - 1
        } else {
            0
        },
        forall|k: int| 0 <= k < pairs@.len() ==> pairs@[k] == (path@[k], path@[k + 1]),
{
    path.iter().tuple_windows().map(|(&p, &q)| (p, q)).collect()
}

/// `String::from_utf8`, with its error dropped.
///
/// Believed of it: it gives a string just for bytes that are valid UTF-8, and
/// the string it gives holds the characters that these bytes encode.
#[verifier::external_body]
pub(crate) fn string_from_utf8(bytes: Vec<u8>) -> (r: Option<String>)
    ensures
        r is Some <==> valid_utf8(bytes@),
        r is Some ==> r->0@ == decode_utf8(bytes@),
{
    String::from_utf8(bytes).ok()
}

} // verus!
