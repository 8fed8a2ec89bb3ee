use vstd::prelude::*;

verus! {

/// A piece on the board: a man or a king ("queen") of either colour.
#[derive(Debug, Clone, Copy, PartialEq, Eq, Structural)]
pub enum Checker {
    White,
    Black,
    WhiteQueen,
    BlackQueen,
}

impl Checker {
    pub open spec fn spec_is_black(&self) -> bool {
        matches!(self, Checker::Black | Checker::BlackQueen)
    }

    pub open spec fn spec_is_white(&self) -> bool {
        matches!(self, Checker::White | Checker::WhiteQueen)
    }

    pub open spec fn spec_is_queen(&self) -> bool {
        matches!(self, Checker::WhiteQueen | Checker::BlackQueen)
    }

    pub open spec fn spec_is_enemy(&self, other: Checker) -> bool {
        self.spec_is_black() != other.spec_is_black()
    }

    pub open spec fn spec_promote(&self) -> Checker {
        match self {
            Checker::White => Checker::WhiteQueen,
            Checker::Black => Checker::BlackQueen,
            _ => *self,
        }
    }

    #[verifier::when_used_as_spec(spec_is_black)]
    pub fn is_black(&self) -> (r: bool)
        ensures
            r == self.spec_is_black(),
    {
        matches!(self, Checker::Black | Checker::BlackQueen)
    }

    #[verifier::when_used_as_spec(spec_is_white)]
    pub fn is_white(&self) -> (r: bool)
        ensures
            r == self.spec_is_white(),
    {
        matches!(self, Checker::White | Checker::WhiteQueen)
    }

    #[verifier::when_used_as_spec(spec_is_queen)]
    pub fn is_queen(&self) -> (r: bool)
        ensures
            r == self.spec_is_queen(),
    {
        matches!(self, Checker::WhiteQueen | Checker::BlackQueen)
    }

    /// Two pieces are enemies when their colours differ.
    #[verifier::when_used_as_spec(spec_is_enemy)]
    pub fn is_enemy(&self, other_checker: Checker) -> (r: bool)
        ensures
            r == self.spec_is_enemy(other_checker),
    {
        (self.is_black() && other_checker.is_white()) || (self.is_white()
            && other_checker.is_black())
    }

    /// The king of the same colour; a king stays as it is.
    #[verifier::when_used_as_spec(spec_promote)]
    pub fn promote(&self) -> (r: Checker)
        ensures
            r == self.spec_promote(),
            r.spec_is_queen(),
            r.spec_is_black() == self.spec_is_black(),
    {
        match self {
            Checker::White => Checker::WhiteQueen,
            Checker::Black => Checker::BlackQueen,
            _ => *self,
        }
    }
}

} // verus!
