//! The game: a board with its dimensions, and the outcome that follows from
//! the board after every move.

use std::collections::HashSet;
use vstd::prelude::*;
use crate::board::{adjacent_mines, fresh_board, lemma_count_around, mine_positions, mines_around, mines_fit};
use crate::error::GameError;
use crate::tile::Tile;

verus! {

/// A game that is still under way.
#[derive(Clone, Debug, PartialEq, Eq)]
pub struct Game {
    /// Number of columns.
    pub width: usize,
    /// Number of rows.
    pub height: usize,
    /// The tiles, row by row.
    pub board: Vec<Tile>,
}

/// The board of a game that has ended, as it stood at that moment.
#[derive(Clone, Debug, PartialEq, Eq)]
pub struct FinishedGame {
    /// The tiles, row by row.
    pub board: Vec<Tile>,
}

/// What a board amounts to: a game to go on with, or a final board.
#[derive(Clone, Debug, PartialEq, Eq)]
pub enum GameState {
    /// No mine is uncovered and a safe tile is still covered.
    InProgress(Game),
    /// Every safe tile is uncovered and no mine is.
    Won(FinishedGame),
    /// A mine is uncovered.
    Lost(FinishedGame),
}

/// A game that is under way, as plain values.
pub struct GameView {
    /// Number of columns.
    pub width: int,
    /// Number of rows.
    pub height: int,
    /// The tiles, row by row.
    pub board: Seq<Tile>,
}

/// What a board amounts to, as plain values.
pub enum GameStateView {
    /// A game to go on with.
    InProgress(GameView),
    /// The final board of a game that was won.
    Won(Seq<Tile>),
    /// The final board of a game that was lost.
    Lost(Seq<Tile>),
}

impl GameStateView {
    /// The board that the state carries.
    pub open spec fn board(self) -> Seq<Tile> {
        match self {
            GameStateView::InProgress(game) => game.board,
            GameStateView::Won(board) => board,
            GameStateView::Lost(board) => board,
        }
    }
}

impl View for Game {
    type V = GameView;

    open spec fn view(&self) -> GameView {
        GameView { width: self.width as int, height: self.height as int, board: self.board@ }
    }
}

impl View for FinishedGame {
    type V = Seq<Tile>;

    open spec fn view(&self) -> Seq<Tile> {
        self.board@
    }
}

impl View for GameState {
    type V = GameStateView;

    open spec fn view(&self) -> GameStateView {
        match self {
            GameState::InProgress(game) => GameStateView::InProgress(game@),
            GameState::Won(done) => GameStateView::Won(done@),
            GameState::Lost(done) => GameStateView::Lost(done@),
        }
    }
}

/// The positions of the mines on a board.
pub open spec fn mines_on(board: Seq<Tile>) -> Set<int> {
    Set::new(|i: int| 0 <= i < board.len() && board[i].is_bomb)
}

/// Whether some mine of the board is uncovered.
pub open spec fn any_mine_revealed(board: Seq<Tile>) -> bool {
    exists|i: int| 0 <= i < board.len() && board[i].is_bomb && board[i].is_revealed
}

/// Whether some tile without a mine is still covered.
pub open spec fn any_safe_hidden(board: Seq<Tile>) -> bool {
    exists|i: int| 0 <= i < board.len() && !board[i].is_bomb && !board[i].is_revealed
}

impl GameView {
    /// The board has one tile for each cell of the grid, and each tile's
    /// count is the number of mines that touch it.
    pub open spec fn wf(self) -> bool {
        &&& self.width >= 0
        &&& self.height >= 0
        &&& self.board.len() == self.width * self.height
        &&& forall|i: int|
            0 <= i < self.board.len() ==> (#[trigger] self.board[i]).bomb_neighbors == mines_around(
                mines_on(self.board),
                self.width,
                self.height,
                i,
            )
    }

    /// What the board amounts to. An uncovered mine loses the game, whatever
    /// else is uncovered; without one, the game is won once no safe tile is
    /// covered, and goes on until then. A newly built board without any safe
    /// tile is won, and one with safe tiles, all of them covered, goes on,
    /// even where it holds no mine.
    pub open spec fn outcome(self) -> GameStateView {
        if any_mine_revealed(self.board) {
            GameStateView::Lost(self.board)
        } else if any_safe_hidden(self.board) {
            GameStateView::InProgress(self)
        } else {
            GameStateView::Won(self.board)
        }
    }
}

/// The game of `width` by `height` tiles with the given mines, nothing
/// uncovered.
pub open spec fn fresh_game(width: int, height: int, mines: Set<int>) -> GameView {
    GameView { width, height, board: fresh_board(width, height, mines) }
}

/// A newly built board counts its mines rightly.
pub proof fn lemma_fresh_game_wf(width: int, height: int, mines: Set<int>)
    requires
        width >= 0,
        height >= 0,
    ensures
        fresh_game(width, height, mines).wf(),
{
    let game = fresh_game(width, height, mines);
    assert(width * height >= 0) by (nonlinear_arith)
        requires
            width >= 0,
            height >= 0,
    ;
    assert forall|i: int| 0 <= i < game.board.len() implies (#[trigger] game.board[i]).bomb_neighbors
        == mines_around(mines_on(game.board), width, height, i) by {
        assert(width > 0 && height > 0) by (nonlinear_arith)
            requires
                0 <= i < width * height,
                width >= 0,
                height >= 0,
        ;
        lemma_count_around(mines, width, height, i);
        assert(adjacent_mines(mines_on(game.board), width, height, i) =~= adjacent_mines(
            mines,
            width,
            height,
            i,
        ));
    }
}

impl Game {
    /// See [`GameView::wf`].
    pub open spec fn wf(&self) -> bool {
        self@.wf()
    }

    /// Builds the game of `width` by `height` tiles that holds a mine on
    /// each tile named in `bomb_indices`, and says what it amounts to before
    /// the first move.
    ///
    /// Fails with `InvalidConfiguration` if a mine lies off the grid.
    pub fn new(width: usize, height: usize, bomb_indices: &HashSet<usize>) -> (made: Result<
        GameState,
        GameError,
    >)
        requires
            width * height <= usize::MAX,
        ensures
            made is Ok <==> mines_fit(mine_positions(bomb_indices@), width * height),
            made matches Ok(state) ==> state@ == fresh_game(
                width as int,
                height as int,
                mine_positions(bomb_indices@),
            ).outcome() && state.wf(),
            made matches Ok(state) ==> state@.board().len() == width * height && forall|i: int|
                0 <= i < width * height ==> {
                    &&& (#[trigger] state@.board()[i]).is_bomb == bomb_indices@.contains(i as usize)
                    &&& !state@.board()[i].is_revealed
                    &&& state@.board()[i].bomb_neighbors == adjacent_mines(
                        mines_on(state@.board()),
                        width as int,
                        height as int,
                        i,
                    ).len()
                },
            made matches Err(e) ==> e == GameError::InvalidConfiguration,
    {
        match Game::init_game_board(width, height, bomb_indices) {
            Ok(board) => {
                let game = Game { width, height, board };
                proof {
                    lemma_fresh_game_wf(width as int, height as int, mine_positions(bomb_indices@));
                }
                Ok(game.calculate_state())
            },
            Err(e) => Err(e),
        }
    }

    /// Says what the board amounts to, and hands the board on in that form.
    pub fn calculate_state(self) -> (state: GameState)
        ensures
            state@ == self@.outcome(),
            self.wf() ==> state.wf(),
    {
        let mut unrevealed_non_bomb = false;
        let mut i: usize = 0;
        while i < self.board.len()
            invariant
                i <= self.board.len(),
                forall|k: int| 0 <= k < i ==> !(self.board[k].is_bomb && self.board[k].is_revealed),
                unrevealed_non_bomb <==> exists|k: int|
                    0 <= k < i && !self.board[k].is_bomb && !self.board[k].is_revealed,
            decreases self.board.len() - i,
        {
            let tile = self.board[i];
            if tile.is_bomb && tile.is_revealed {
                return GameState::Lost(FinishedGame { board: self.board });
            }
            if !tile.is_bomb && !tile.is_revealed {
                unrevealed_non_bomb = true;
            }
            i = i + 1;
        }
        if unrevealed_non_bomb {
            GameState::InProgress(self)
        } else {
            GameState::Won(FinishedGame { board: self.board })
        }
    }
}

impl GameState {
    /// A game that goes on is well formed.
    pub open spec fn wf(&self) -> bool {
        match self {
            GameState::InProgress(game) => game.wf(),
            _ => true,
        }
    }
}

} // verus!
