//! The player's move: uncovering a tile.

use vstd::prelude::*;
use crate::cascade::{lemma_same_layout_wf, mark_model, reveal_model, same_layout};
use crate::error::GameError;
use crate::game::{Game, GameState};

verus! {

/// A move that was turned down, with the game as it was handed in.
#[derive(Clone, Debug, PartialEq, Eq)]
pub struct RevealError {
    /// Why the move was turned down.
    pub kind: GameError,
    /// The game, untouched.
    pub game: Game,
}

/// What uncovering tile `ix` of `game` gives. On the grid, the outcome of
/// the game after the move. Off the grid, `IndexOutOfBounds` and the game as
/// it was.
pub open spec fn reveal_result(game: Game, ix: int, moved: Result<GameState, RevealError>) -> bool {
    if 0 <= ix < game.board.len() {
        &&& moved matches Ok(state)
        &&& state@ == reveal_model(game@, ix).outcome()
        &&& state.wf()
    } else {
        moved == Err::<GameState, RevealError>(
            RevealError { kind: GameError::IndexOutOfBounds, game },
        )
    }
}

impl Game {
    /// The index of the tile in column `x` of row `y`, where it fits the
    /// machine's integers.
    pub(crate) fn to_index(&self, x: usize, y: usize) -> (index: Option<usize>)
        ensures
            match index {
                Some(i) => i == x + self.width * y,
                None => x + self.width * y > usize::MAX,
            },
    {
        match self.width.checked_mul(y) {
            Some(above) => x.checked_add(above),
            None => None,
        }
    }

    /// Uncovers the tile in column `x` of row `y`, which is the tile with
    /// index `x + width * y`, as [`Game::reveal_index`] does.
    pub fn reveal_at(self, x: usize, y: usize) -> (moved: Result<GameState, RevealError>)
        requires
            self.wf(),
        ensures
            reveal_result(self, x + self.width * y, moved),
    {
        match self.to_index(x, y) {
            Some(index) => self.reveal_index(index),
            None => Err(RevealError { kind: GameError::IndexOutOfBounds, game: self }),
        }
    }

    /// Uncovers tile `ix` and says what the game amounts to after that.
    ///
    /// A tile that is uncovered already changes nothing. A mine is uncovered
    /// alone. A safe tile is uncovered together with every tile that the
    /// cascade from it reaches. An index off the grid is turned down with
    /// `IndexOutOfBounds`, and the game comes back as it was.
    pub fn reveal_index(self, ix: usize) -> (moved: Result<GameState, RevealError>)
        requires
            self.wf(),
        ensures
            reveal_result(self, ix as int, moved),
    {
        if ix >= self.board.len() {
            return Err(RevealError { kind: GameError::IndexOutOfBounds, game: self });
        }
        let ghost before = self@;
        let mut game = self;
        let tile = game.board[ix];
        if !tile.is_revealed {
            game.board[ix] = tile.uncover();
            proof {
                lemma_same_layout_wf(before, game@);
            }
            if !tile.is_bomb {
                let ghost marked = game@;
                game.auto_reveal_safe_neighbours(ix);
                proof {
                    lemma_same_layout_wf(marked, game@);
                }
            }
        }
        Ok(game.calculate_state())
    }
}

} // verus!
