//! The board's squares and the small pieces of state around a turn.
use vstd::prelude::*;

use crate::pieces::Player;

verus! {

/// A square of the board, by column and row.
#[derive(Clone, Copy, PartialEq, Eq, Debug, Structural)]
pub struct Square {
    pub x: i8,
    pub y: i8,
}

impl Square {
    /// The light squares of the checkered board.
    pub fn is_white(&self) -> (r: bool)
        requires
            0 <= self.x <= 10,
            0 <= self.y <= 10,
        ensures
            r == ((self.x + self.y + 1) % 2 == 0),
    {
        (self.x + self.y + 1) % 2 == 0
    }
}

/// The square the user last picked, if any.
#[derive(Clone, Copy, PartialEq, Eq, Debug, Structural)]
pub struct SelectedSquare {
    pub square: Option<Square>,
}

impl Default for SelectedSquare {
    fn default() -> (r: SelectedSquare)
        ensures
            r.square is None,
    {
        SelectedSquare { square: None }
    }
}

pub open spec fn opponent(p: Player) -> Player {
    match p {
        Player::Defender => Player::Attacker,
        Player::Attacker => Player::Defender,
    }
}

/// The side whose turn it is.
#[derive(Clone, Copy, PartialEq, Eq, Debug, Structural)]
pub struct PlayerTurn(pub Player);

impl Default for PlayerTurn {
    /// The attackers open the game.
    fn default() -> (r: PlayerTurn)
        ensures
            r.0 == Player::Attacker,
    {
        PlayerTurn(Player::Attacker)
    }
}

impl PlayerTurn {
    /// Hands the turn to the other side.
    pub fn change(&mut self)
        ensures
            final(self).0 == opponent(old(self).0),
    {
        self.0 =
        match self.0 {
            Player::Defender => Player::Attacker,
            Player::Attacker => Player::Defender,
        }
    }
}

/// The square of the last accepted move.
#[derive(Clone, Copy, PartialEq, Eq, Debug, Structural)]
pub struct LastDestination {
    pub x: i8,
    pub y: i8,
}

impl Default for LastDestination {
    fn default() -> (r: LastDestination)
        ensures
            r.x == 0 && r.y == 0,
    {
        LastDestination { x: 0, y: 0 }
    }
}

} // verus!
