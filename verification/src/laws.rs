//! What holds of every board and every move.

use vstd::prelude::*;
use crate::board::{adjacent_mines, fresh_board, lemma_count_around, mines_around};
use crate::cascade::{
    cascade_model, cascade_reaches, is_cascade_path, lemma_reaches_step, lemma_same_layout_wf,
    mark_model, reveal_model, same_layout, spreads,
};
use crate::game::{
    any_mine_revealed, any_safe_hidden, fresh_game, lemma_fresh_game_wf, mines_on, GameStateView,
    GameView,
};
use crate::grid::{adjacent, column_of, lemma_cell_coordinates, lemma_step_touches, on_grid, row_of};
use crate::tile::Tile;

verus! {

/// On a newly built board, a tile holds a mine exactly where one was
/// placed, is covered, and counts exactly the mines on the tiles that touch
/// it, of which there are at most eight.
pub proof fn lemma_fresh_board_counts(width: int, height: int, mines: Set<int>, i: int)
    requires
        on_grid(width, height, i),
    ensures
        fresh_board(width, height, mines).len() == width * height,
        fresh_board(width, height, mines)[i].is_bomb == mines.contains(i),
        !fresh_board(width, height, mines)[i].is_revealed,
        fresh_board(width, height, mines)[i].bomb_neighbors as int == adjacent_mines(
            mines,
            width,
            height,
            i,
        ).len(),
        adjacent_mines(mines, width, height, i).finite(),
        adjacent_mines(mines, width, height, i).len() <= 8,
{
    lemma_count_around(mines, width, height, i);
}

/// The same of the game as it is handed out, in plain arithmetic: whatever
/// the game amounts to at the start, its board has one tile for each cell,
/// a mine exactly where one was placed, and on tile `i` the number of tiles
/// `j` other than `i` that hold a mine and lie at most one column and at
/// most one row away from `i`.
pub proof fn lemma_new_game_counts(width: int, height: int, mines: Set<int>, i: int)
    requires
        on_grid(width, height, i),
    ensures
        ({
            let b = fresh_game(width, height, mines).outcome().board();
            &&& b.len() == width * height
            &&& b[i].is_bomb == mines.contains(i)
            &&& b[i].bomb_neighbors as int == Set::new(
                |j: int|
                    0 <= j < width * height && j != i && -1 <= j % width - i % width <= 1 && -1 <= j
                        / width - i / width <= 1 && b[j].is_bomb,
            ).len()
        }),
{
    let b = fresh_game(width, height, mines).outcome().board();
    lemma_fresh_board_counts(width, height, mines, i);
    assert(b == fresh_board(width, height, mines));
    assert(Set::new(
        |j: int|
            0 <= j < width * height && j != i && -1 <= j % width - i % width <= 1 && -1 <= j / width
                - i / width <= 1 && b[j].is_bomb,
    ) =~= adjacent_mines(mines, width, height, i));
}

/// In a well-formed game every tile counts exactly the mines on the tiles
/// that touch it, whatever is uncovered, and a move leaves the game well
/// formed: the counts are never computed anew and never go wrong.
pub proof fn lemma_counts_stay_exact(g: GameView, ix: int, i: int)
    requires
        g.wf(),
        0 <= ix < g.board.len(),
        0 <= i < g.board.len(),
    ensures
        g.board[i].bomb_neighbors as int == adjacent_mines(
            mines_on(g.board),
            g.width,
            g.height,
            i,
        ).len(),
        reveal_model(g, ix).wf(),
        reveal_model(g, ix).board[i].bomb_neighbors as int == adjacent_mines(
            mines_on(reveal_model(g, ix).board),
            g.width,
            g.height,
            i,
        ).len(),
{
    lemma_move_only_uncovers(g, ix);
    lemma_same_layout_wf(g, reveal_model(g, ix));
}

/// A move changes nothing but what is uncovered, and covers nothing up:
/// mines stay where they are, counts stay as they were computed, and a tile
/// once uncovered stays so.
pub proof fn lemma_move_only_uncovers(g: GameView, ix: int)
    requires
        0 <= ix < g.board.len(),
    ensures
        same_layout(g, reveal_model(g, ix)),
        reveal_model(g, ix).board[ix].is_revealed,
        forall|t: int|
            0 <= t < g.board.len() && g.board[t].is_revealed ==> (#[trigger] reveal_model(
                g,
                ix,
            ).board[t]).is_revealed,
{
}

/// Uncovering a tile a second time changes nothing: the move on a tile that
/// is uncovered already gives the game back, and so does repeating a move.
pub proof fn lemma_repeated_move_changes_nothing(g: GameView, ix: int)
    requires
        0 <= ix < g.board.len(),
    ensures
        g.board[ix].is_revealed ==> reveal_model(g, ix) == g,
        reveal_model(reveal_model(g, ix), ix) == reveal_model(g, ix),
        reveal_model(reveal_model(g, ix), ix).outcome() == reveal_model(g, ix).outcome(),
{
    lemma_move_only_uncovers(g, ix);
}

/// A tile that no mine touches has no mine beside it.
proof fn lemma_zero_count_has_safe_neighbours(g: GameView, a: int, b: int)
    requires
        g.wf(),
        0 <= a < g.board.len(),
        g.board[a].bomb_neighbors == 0,
        adjacent(g.width, g.height, a, b),
    ensures
        !g.board[b].is_bomb,
{
    lemma_count_around(mines_on(g.board), g.width, g.height, a);
    let around = adjacent_mines(mines_on(g.board), g.width, g.height, a);
    assert(mines_around(mines_on(g.board), g.width, g.height, a) == 0);
    around.lemma_len0_is_empty();
    if g.board[b].is_bomb {
        assert(mines_on(g.board).contains(b));
        assert(around.contains(b));
    }
}

/// The cascade never uncovers a mine: after a move, the only mine that can
/// be newly uncovered is the tile that the player picked.
pub proof fn lemma_cascade_spares_mines(g: GameView, ix: int, t: int)
    requires
        g.wf(),
        0 <= ix < g.board.len(),
        0 <= t < g.board.len(),
        reveal_model(g, ix).board[t].is_revealed,
        g.board[t].is_bomb,
    ensures
        g.board[t].is_revealed || t == ix,
{
    if !g.board[ix].is_revealed && !g.board[ix].is_bomb && !g.board[t].is_revealed && t != ix {
        let marked = mark_model(g, ix);
        assert(cascade_reaches(marked, ix, t));
        let path = choose|path: Seq<int>| #[trigger]
            is_cascade_path(marked, path) && path.first() == ix && path.last() == t;
        let last = path.len() - 1;
        assert(spreads(marked, path[last - 1], path[last - 1 + 1]));
        let a = path[last - 1];
        assert(same_layout(g, marked));
        assert(g.board[a].bomb_neighbors == marked.board[a].bomb_neighbors);
        lemma_zero_count_has_safe_neighbours(g, a, t);
    }
}

/// Uncovering a safe tile never loses a game that was not lost before.
pub proof fn lemma_safe_move_never_loses(g: GameView, ix: int)
    requires
        g.wf(),
        0 <= ix < g.board.len(),
        !g.board[ix].is_bomb,
        !any_mine_revealed(g.board),
    ensures
        !any_mine_revealed(reveal_model(g, ix).board),
        !(reveal_model(g, ix).outcome() is Lost),
{
    let after = reveal_model(g, ix);
    lemma_move_only_uncovers(g, ix);
    if any_mine_revealed(after.board) {
        let t = choose|t: int|
            0 <= t < after.board.len() && after.board[t].is_bomb && after.board[t].is_revealed;
        assert(g.board[t].is_bomb);
        lemma_cascade_spares_mines(g, ix, t);
    }
}

/// Uncovering a covered mine loses the game, and uncovers nothing else.
pub proof fn lemma_mine_move_loses(g: GameView, ix: int)
    requires
        0 <= ix < g.board.len(),
        g.board[ix].is_bomb,
        !g.board[ix].is_revealed,
    ensures
        reveal_model(g, ix) == mark_model(g, ix),
        reveal_model(g, ix).outcome() == GameStateView::Lost(mark_model(g, ix).board),
{
    let after = mark_model(g, ix);
    assert(after.board[ix].is_bomb && after.board[ix].is_revealed);
}

/// Whether the board holds no mine and nothing on it is uncovered.
pub open spec fn untouched_without_mines(board: Seq<Tile>) -> bool {
    forall|t: int|
        0 <= t < board.len() ==> !(#[trigger] board[t]).is_bomb && !board[t].is_revealed
}

/// On a board without mines, nothing uncovered but the tile `ix`, the
/// cascade from `ix` reaches every tile.
proof fn lemma_cascade_crosses_empty_board(g: GameView, ix: int, t: int)
    requires
        g.wf(),
        untouched_without_mines(g.board),
        0 <= ix < g.board.len(),
        0 <= t < g.board.len(),
    ensures
        cascade_reaches(mark_model(g, ix), ix, t),
    decreases
            (if row_of(g.width, t) >= row_of(g.width, ix) {
                row_of(g.width, t) - row_of(g.width, ix)
            } else {
                row_of(g.width, ix) - row_of(g.width, t)
            }) + (if column_of(g.width, t) >= column_of(g.width, ix) {
                column_of(g.width, t) - column_of(g.width, ix)
            } else {
                column_of(g.width, ix) - column_of(g.width, t)
            }),
{
    let width = g.width;
    let height = g.height;
    let marked = mark_model(g, ix);
    assert(width > 0 && height > 0) by (nonlinear_arith)
        requires
            0 <= ix < width * height,
            width >= 0,
            height >= 0,
    ;
    lemma_cell_coordinates(width, height, ix);
    lemma_cell_coordinates(width, height, t);
    let dy = row_of(width, t) - row_of(width, ix);
    let dx = column_of(width, t) - column_of(width, ix);
    if dy == 0 && dx == 0 {
        let path = seq![ix];
        assert(is_cascade_path(marked, path));
        assert(path.first() == ix && path.last() == t);
    } else {
        let sy: int = if dy > 0 {
            -1
        } else if dy < 0 {
            1
        } else {
            0
        };
        let sx: int = if dy != 0 {
            0
        } else if dx > 0 {
            -1
        } else {
            1
        };
        let from = t + sy * width + sx;
        lemma_step_touches(width, height, t, sy, sx);
        lemma_cascade_crosses_empty_board(g, ix, from);
        lemma_step_touches(width, height, from, -sy, -sx);
        assert(from + (-sy) * width + (-sx) == t) by (nonlinear_arith)
            requires
                from == t + sy * width + sx,
        ;
        assert(adjacent(width, height, from, t));
        assert(mines_on(g.board) =~= Set::<int>::empty());
        assert(adjacent_mines(mines_on(g.board), width, height, from) =~= Set::<int>::empty());
        assert(g.board[from].bomb_neighbors == 0);
        assert(!g.board[t].is_revealed);
        assert(spreads(marked, from, t));
        lemma_reaches_step(marked, ix, from, t);
    }
}

/// On a board without mines the first move wins: whichever tile is
/// uncovered, the cascade uncovers the whole board. This holds of the
/// newly built game of any width and height, square or not.
pub proof fn lemma_first_move_wins_without_mines(g: GameView, ix: int)
    requires
        g.wf(),
        untouched_without_mines(g.board),
        0 <= ix < g.board.len(),
    ensures
        forall|t: int|
            0 <= t < g.board.len() ==> (#[trigger] reveal_model(g, ix).board[t]).is_revealed,
        reveal_model(g, ix).outcome() == GameStateView::Won(reveal_model(g, ix).board),
{
    let after = reveal_model(g, ix);
    assert(after == cascade_model(mark_model(g, ix), ix));
    assert forall|t: int| 0 <= t < g.board.len() implies (#[trigger] after.board[t]).is_revealed by {
        lemma_cascade_crosses_empty_board(g, ix, t);
    }
    assert(!any_mine_revealed(after.board));
    assert(!any_safe_hidden(after.board));
}

/// A newly built game without mines is an untouched board without mines.
pub proof fn lemma_fresh_game_without_mines(width: int, height: int)
    requires
        width >= 0,
        height >= 0,
    ensures
        fresh_game(width, height, Set::empty()).wf(),
        untouched_without_mines(fresh_game(width, height, Set::empty()).board),
{
    lemma_fresh_game_wf(width, height, Set::empty());
}

} // verus!
