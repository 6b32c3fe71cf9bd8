//! The four move directions and their transpose symmetry.

use vstd::prelude::*;

verus! {

/// A move direction chosen by the player.
#[derive(Debug, PartialEq, Eq, Structural, Clone, Copy)]
pub enum Action {
    Up,
    Right,
    Down,
    Left,
}

impl Action {
    /// Whether the direction moves tiles along columns, for use in contracts.
    pub open spec fn is_vertical_spec(self) -> bool {
        self == Action::Up || self == Action::Down
    }

    /// True for the two directions that move tiles along columns.
    pub fn is_vertical(&self) -> (r: bool)
        ensures
            r == self.is_vertical_spec(),
    {
        match self {
            Action::Up | Action::Down => true,
            _ => false,
        }
    }

    /// The direction that resolves the same move on the transposed grid:
    /// Up and Left exchange, Down and Right exchange.
    pub fn transpose(&self) -> (r: Action)
        ensures
            r == self.transpose_spec(),
    {
        match self {
            Action::Up => Action::Left,
            Action::Right => Action::Down,
            Action::Down => Action::Right,
            Action::Left => Action::Up,
        }
    }

    /// What `transpose` returns, for use in contracts.
    pub open spec fn transpose_spec(self) -> Action {
        match self {
            Action::Up => Action::Left,
            Action::Right => Action::Down,
            Action::Down => Action::Right,
            Action::Left => Action::Up,
        }
    }
}

/// Exchanging a direction with its transposed direction twice gives the
/// original direction back: the mapping is an involution, pairing Up with
/// Left and Down with Right.
pub proof fn lemma_action_transpose_involution(a: Action)
    ensures
        a.transpose_spec().transpose_spec() == a,
{
}

} // verus!
