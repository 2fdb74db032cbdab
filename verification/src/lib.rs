//! Types for pairwise sequence alignments: positions, cost models and CIGARs.

pub mod cigar;
pub mod cost;
pub mod model;
pub mod pairs;
pub mod path;
pub mod pos;
pub mod resolve;
pub mod text;
pub mod trusted;
pub mod verify;

pub use crate::cigar::{Cigar, CigarElem, CigarOp};
pub use crate::cost::{Cost, CostModel, Score, ScoreModel};
pub use crate::pairs::CigarOpChars;
pub use crate::path::Path;
pub use crate::pos::{LexPos, Pos};
pub use crate::verify::VerifyError;

use crate::trusted::string_from_utf8;
use vstd::prelude::*;
use vstd::slice::slice_to_vec;
use vstd::utf8::{decode_utf8, valid_utf8};

verus! {

/// A single base.
pub type Base = u8;

/// An owned sequence of bases.
pub type Sequence = Vec<Base>;

/// A 0-based index into a sequence.
pub type I = i32;

/// Convert `seq` to a `String`.
pub fn seq_to_string(seq: &[u8]) -> (s: String)
    requires
        valid_utf8(seq@),
    ensures
        s@ == decode_utf8(seq@),
{
    string_from_utf8(slice_to_vec(seq)).unwrap()
}

} // verus!
