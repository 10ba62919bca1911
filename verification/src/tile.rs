//! One cell of the board.

use vstd::prelude::*;

verus! {

/// One cell of the board.
///
/// `is_bomb` and `bomb_neighbors` are fixed when the board is built;
/// `is_revealed` goes from `false` to `true` at most once.
#[derive(Clone, Copy, Debug, PartialEq, Eq)]
pub struct Tile {
    /// Whether the tile holds a mine.
    pub is_bomb: bool,
    /// Whether the player has uncovered the tile.
    pub is_revealed: bool,
    /// Number of mines on the tiles that touch this one.
    pub bomb_neighbors: u8,
}

impl Tile {
    /// The same tile, uncovered.
    pub open spec fn uncovered(self) -> Tile {
        Tile { is_bomb: self.is_bomb, is_revealed: true, bomb_neighbors: self.bomb_neighbors }
    }

    /// Uncovers the tile and leaves its mine and its count as they are.
    pub fn uncover(self) -> (shown: Tile)
        ensures
            shown == self.uncovered(),
    {
        Tile { is_bomb: self.is_bomb, is_revealed: true, bomb_neighbors: self.bomb_neighbors }
    }
}

} // verus!
