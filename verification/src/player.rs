//! The two players and the contents of a single cell.

use vstd::prelude::*;

verus! {

/// One of the two players.  `Player1` owns the `x` marks and always moves
/// first; `Player2` owns the `o` marks.
#[derive(Debug, Clone, Copy, PartialEq, Eq, Hash, Structural)]
pub enum Player {
    Player1,
    Player2,
}

impl Player {
    /// The opponent of this player.
    pub fn get_other_player(&self) -> (r: Player)
        ensures
            r == self.spec_other(),
    {
        match self {
            Player::Player1 => Player::Player2,
            Player::Player2 => Player::Player1,
        }
    }

    /// The opponent, as a spec-level function.
    pub open spec fn spec_other(self) -> Player {
        match self {
            Player::Player1 => Player::Player2,
            Player::Player2 => Player::Player1,
        }
    }

    /// The mark this player places on the board.
    pub fn tile(&self) -> (r: Tile)
        ensures
            r == self.spec_tile(),
    {
        match self {
            Player::Player1 => Tile::Player1,
            Player::Player2 => Tile::Player2,
        }
    }

    /// The mark of this player, as a spec-level function.
    pub open spec fn spec_tile(self) -> Tile {
        match self {
            Player::Player1 => Tile::Player1,
            Player::Player2 => Tile::Player2,
        }
    }
}

/// The contents of one cell: a mark of either player, or empty.
#[derive(Debug, Clone, Copy, PartialEq, Eq, Hash, Structural)]
pub enum Tile {
    Player1,
    Player2,
    Empty,
}

impl Tile {
    /// The owner of the mark in this cell, if any.
    pub fn player(&self) -> (r: Option<Player>)
        ensures
            r == self.spec_player(),
    {
        match self {
            Tile::Player1 => Some(Player::Player1),
            Tile::Player2 => Some(Player::Player2),
            Tile::Empty => None,
        }
    }

    /// The owner of the mark in this cell, as a spec-level function.
    pub open spec fn spec_player(self) -> Option<Player> {
        match self {
            Tile::Player1 => Some(Player::Player1),
            Tile::Player2 => Some(Player::Player2),
            Tile::Empty => None,
        }
    }
}

} // verus!
