use vstd::prelude::*;

use crate::checker::Checker;

verus! {

/// What one square holds: nothing, a piece, or a transient marker left by
/// a legal-move query (`Move` for a plain step, `Capture` for a capture landing).
#[derive(Debug, Clone, Copy, PartialEq, Eq, Structural)]
pub enum Cell {
    Empty,
    Move,
    Capture,
    Checker(Checker),
}

impl Cell {
    pub open spec fn spec_is_empty(&self) -> bool {
        *self == Cell::Empty
    }

    pub open spec fn spec_is_checker(&self) -> bool {
        self is Checker
    }

    pub open spec fn spec_is_move(&self) -> bool {
        *self == Cell::Move || *self == Cell::Capture
    }

    pub open spec fn spec_is_enemy(&self, other: Cell) -> bool {
        match (*self, other) {
            (Cell::Checker(a), Cell::Checker(b)) => a.spec_is_enemy(b),
            _ => false,
        }
    }

    pub open spec fn spec_promote(&self) -> Cell {
        match *self {
            Cell::Checker(c) => Cell::Checker(c.spec_promote()),
            _ => *self,
        }
    }

    pub open spec fn spec_is_queen(&self) -> bool {
        match *self {
            Cell::Checker(c) => c.spec_is_queen(),
            _ => false,
        }
    }

    #[verifier::when_used_as_spec(spec_is_empty)]
    pub fn is_empty(&self) -> (r: bool)
        ensures
            r == self.spec_is_empty(),
    {
        matches!(self, Cell::Empty)
    }

    #[verifier::when_used_as_spec(spec_is_checker)]
    pub fn is_checker(&self) -> (r: bool)
        ensures
            r == self.spec_is_checker(),
    {
        matches!(self, Cell::Checker(_))
    }

    /// Whether the cell holds a marker of either kind.
    #[verifier::when_used_as_spec(spec_is_move)]
    pub fn is_move(&self) -> (r: bool)
        ensures
            r == self.spec_is_move(),
    {
        matches!(self, Cell::Move | Cell::Capture)
    }

    /// Whether both cells hold pieces, of different colours.
    #[verifier::when_used_as_spec(spec_is_enemy)]
    pub fn is_enemy(&self, other_cell: Cell) -> (r: bool)
        ensures
            r == self.spec_is_enemy(other_cell),
    {
        match (self, other_cell) {
            (Cell::Checker(checker), Cell::Checker(other_checker)) => checker.is_enemy(
                other_checker,
            ),
            _ => false,
        }
    }

    /// A man becomes the king of its colour; anything else is unchanged.
    #[verifier::when_used_as_spec(spec_promote)]
    pub fn promote(&self) -> (r: Cell)
        ensures
            r == self.spec_promote(),
    {
        if let Cell::Checker(checker) = self {
            return Cell::Checker(checker.promote());
        }
        *self
    }

    #[verifier::when_used_as_spec(spec_is_queen)]
    pub fn is_queen(&self) -> (r: bool)
        ensures
            r == self.spec_is_queen(),
    {
        match self {
            Cell::Checker(checker) => checker.is_queen(),
            _ => false,
        }
    }
}

} // verus!
