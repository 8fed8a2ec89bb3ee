use vstd::prelude::*;

use crate::checker::Checker;

verus! {

/// The side to move.
#[derive(Debug, Clone, Copy, PartialEq, Eq, Structural)]
pub enum Turn {
    White,
    Black,
}

impl Turn {
    pub open spec fn spec_next(&self) -> Turn {
        match *self {
            Turn::Black => Turn::White,
            Turn::White => Turn::Black,
        }
    }

    /// Whether the piece belongs to this side.
    pub open spec fn owns(&self, checker: Checker) -> bool {
        checker.spec_is_black() == (*self == Turn::Black)
    }

    #[verifier::when_used_as_spec(spec_next)]
    pub fn next(&self) -> (r: Turn)
        ensures
            r == self.spec_next(),
            r != *self,
    {
        match self {
            Turn::Black => Turn::White,
            Turn::White => Turn::Black,
        }
    }

    pub fn is_black(&self) -> (r: bool)
        ensures
            r == (*self == Turn::Black),
    {
        matches!(self, Turn::Black)
    }

    pub fn is_white(&self) -> (r: bool)
        ensures
            r == (*self == Turn::White),
    {
        matches!(self, Turn::White)
    }

    /// Whether the piece belongs to this side.
    pub fn is_owner_of(&self, checker: Checker) -> (r: bool)
        ensures
            r == self.owns(checker),
    {
        checker.is_black() == self.is_black()
    }
}

} // verus!
