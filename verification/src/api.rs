//! The response shape of one hint as shown to a player: the hint
//! character and which side of the compound the hidden answer stands on.

use vstd::prelude::*;

verus! {

use crate::data::{Ji, Loc};
use crate::generate::Hint;

/// One hint as presented: the visible character and the answer's side.
#[derive(Debug, Clone, Copy, PartialEq, Eq, Structural)]
pub struct ResHint {
    pub answer: Loc,
    pub hint: Ji,
}

impl ResHint {
    /// Reduces a generated hint to its presentation shape, dropping the
    /// answer character and the internal ranking data.
    pub fn new_from_hint(hint: &Hint) -> (r: ResHint)
        ensures
            r.answer == hint.answer_location,
            r.hint == hint.hint,
    {
        ResHint { answer: hint.answer_location, hint: hint.hint }
    }
}

} // verus!
