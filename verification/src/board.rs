//! Building a board from a set of mine positions.

use std::collections::HashSet;
use vstd::prelude::*;
use vstd::seq_lib::seq_to_set_is_finite;
use crate::error::GameError;
use crate::game::{mines_on, Game};
use crate::grid::{adjacent, as_ints, lemma_neighbours_are_the_adjacent_cells, neighbours, on_grid};
use crate::tile::Tile;

verus! {

/// The positions that a set of indices names, as integers.
pub open spec fn mine_positions(indices: Set<usize>) -> Set<int> {
    Set::new(|i: int| 0 <= i <= usize::MAX && indices.contains(i as usize))
}

/// Whether every mine lies on a grid of `size` tiles.
pub open spec fn mines_fit(mines: Set<int>, size: int) -> bool {
    forall|m: int| mines.contains(m) ==> 0 <= m < size
}

/// The mines on the tiles that touch tile `i`.
pub open spec fn adjacent_mines(mines: Set<int>, width: int, height: int, i: int) -> Set<int> {
    Set::new(|j: int| adjacent(width, height, i, j) && mines.contains(j))
}

/// How many of the tiles that touch tile `i` hold a mine.
pub open spec fn mines_around(mines: Set<int>, width: int, height: int, i: int) -> nat {
    adjacent_mines(mines, width, height, i).len()
}

/// How many entries of `cells` are mines.
pub open spec fn count_in(cells: Seq<int>, mines: Set<int>) -> nat
    decreases cells.len(),
{
    if cells.len() == 0 {
        0
    } else {
        count_in(cells.drop_last(), mines) + if mines.contains(cells.last()) {
            1nat
        } else {
            0nat
        }
    }
}

/// The tile at position `i` of a board on which nothing is uncovered yet.
pub open spec fn fresh_tile(width: int, height: int, mines: Set<int>, i: int) -> Tile {
    Tile {
        is_bomb: mines.contains(i),
        is_revealed: false,
        bomb_neighbors: mines_around(mines, width, height, i) as u8,
    }
}

/// The board of `width` by `height` tiles with the given mines, nothing
/// uncovered.
pub open spec fn fresh_board(width: int, height: int, mines: Set<int>) -> Seq<Tile> {
    Seq::new((width * height) as nat, |i: int| fresh_tile(width, height, mines, i))
}

/// Counting along a list without repetitions gives the number of distinct
/// mines in it.
proof fn lemma_count_in_is_cardinality(cells: Seq<int>, mines: Set<int>)
    requires
        cells.no_duplicates(),
    ensures
        cells.to_set().intersect(mines).finite(),
        count_in(cells, mines) == cells.to_set().intersect(mines).len(),
        count_in(cells, mines) <= cells.len(),
    decreases cells.len(),
{
    seq_to_set_is_finite(cells);
    if cells.len() == 0 {
        assert(cells.to_set().intersect(mines) =~= Set::<int>::empty());
    } else {
        let init = cells.drop_last();
        let last = cells.last();
        lemma_count_in_is_cardinality(init, mines);
        assert(!init.to_set().contains(last)) by {
            if init.to_set().contains(last) {
                let k = choose|k: int| 0 <= k < init.len() && init[k] == last;
                assert(cells[k] == cells[cells.len() - 1]);
            }
        }
        assert(cells.to_set() =~= init.to_set().insert(last)) by {
            assert forall|c: int| cells.to_set().contains(c) implies init.to_set().insert(
                last,
            ).contains(c) by {
                let k = choose|k: int| 0 <= k < cells.len() && cells[k] == c;
                if k < init.len() {
                    assert(init[k] == c);
                }
            }
            assert forall|c: int| init.to_set().insert(last).contains(c) implies cells.to_set().contains(
                c,
            ) by {
                if c == last {
                    assert(cells[cells.len() - 1] == c);
                } else {
                    let k = choose|k: int| 0 <= k < init.len() && init[k] == c;
                    assert(cells[k] == c);
                }
            }
        }
        if mines.contains(last) {
            assert(cells.to_set().intersect(mines) =~= init.to_set().intersect(mines).insert(last));
        } else {
            assert(cells.to_set().intersect(mines) =~= init.to_set().intersect(mines));
        }
    }
}

/// Counting the mines along the list of neighbours of `i` gives the number
/// of mines that touch `i`, which is at most eight.
pub proof fn lemma_count_around(mines: Set<int>, width: int, height: int, i: int)
    requires
        on_grid(width, height, i),
    ensures
        count_in(neighbours(width, height, i), mines) == mines_around(mines, width, height, i),
        mines_around(mines, width, height, i) <= 8,
        adjacent_mines(mines, width, height, i).finite(),
{
    let around = neighbours(width, height, i);
    lemma_neighbours_are_the_adjacent_cells(width, height, i);
    lemma_count_in_is_cardinality(around, mines);
    assert(adjacent_mines(mines, width, height, i) =~= around.to_set().intersect(mines)) by {
        assert forall|j: int| around.to_set().contains(j) <==> adjacent(width, height, i, j) by {
            assert(around.to_set().contains(j) <==> around.contains(j));
        }
    }
}

/// Counts the entries of `cells` that are in `marked`.
fn count_marked(cells: &Vec<usize>, marked: &HashSet<usize>) -> (n: usize)
    ensures
        n == count_in(as_ints(cells@), mine_positions(marked@)),
        n <= cells.len(),
{
    let mut n: usize = 0;
    let mut k: usize = 0;
    while k < cells.len()
        invariant
            k <= cells.len(),
            n <= k,
            n == count_in(as_ints(cells@).take(k as int), mine_positions(marked@)),
        decreases cells.len() - k,
    {
        let hit = marked.contains(&cells[k]);
        proof {
            let upto = as_ints(cells@).take(k + 1);
            assert(upto.drop_last() =~= as_ints(cells@).take(k as int));
        }
        if hit {
            n = n + 1;
        }
        k = k + 1;
    }
    assert(as_ints(cells@).take(cells.len() as int) =~= as_ints(cells@));
    n
}

/// Whether every index in `indices` is below `size`.
fn all_below(indices: &HashSet<usize>, size: usize) -> (ok: bool)
    ensures
        ok <==> mines_fit(mine_positions(indices@), size as int),
{
    for m in it: indices.iter()
        invariant
            forall|k: int| 0 <= k < it.index() ==> *it.seq()[k] < size,
    {
        if *m >= size {
            assert(mine_positions(indices@).contains(*m as int));
            return false;
        }
    }
    true
}

/// Counts the entries of `cells` that name a mine of `board`.
fn count_mines(cells: &Vec<usize>, board: &Vec<Tile>) -> (n: usize)
    requires
        forall|j: int| 0 <= j < cells.len() ==> cells[j] < board.len(),
    ensures
        n == count_in(as_ints(cells@), mines_on(board@)),
        n <= cells.len(),
{
    let mut n: usize = 0;
    let mut k: usize = 0;
    while k < cells.len()
        invariant
            k <= cells.len(),
            n <= k,
            forall|j: int| 0 <= j < cells.len() ==> cells[j] < board.len(),
            n == count_in(as_ints(cells@).take(k as int), mines_on(board@)),
        decreases cells.len() - k,
    {
        let hit = board[cells[k]].is_bomb;
        proof {
            let upto = as_ints(cells@).take(k + 1);
            assert(upto.drop_last() =~= as_ints(cells@).take(k as int));
        }
        if hit {
            n = n + 1;
        }
        k = k + 1;
    }
    assert(as_ints(cells@).take(cells.len() as int) =~= as_ints(cells@));
    n
}

impl Game {
    /// Whether the game is well formed: the board has one tile for each
    /// cell of the grid, and each tile's count is the number of mines that
    /// touch it.
    pub fn is_valid(&self) -> (ok: bool)
        ensures
            ok == self.wf(),
    {
        let tiles = self.board.len();
        let size = match self.width.checked_mul(self.height) {
            Some(size) => size,
            None => {
                return false;
            },
        };
        if size != tiles {
            return false;
        }
        let mut i: usize = 0;
        while i < size
            invariant
                i <= size,
                size == self.width * self.height,
                size == self.board.len(),
                forall|k: int|
                    0 <= k < i ==> (#[trigger] self.board[k]).bomb_neighbors == mines_around(
                        mines_on(self.board@),
                        self.width as int,
                        self.height as int,
                        k,
                    ),
            decreases size - i,
        {
            proof {
                assert(self.width > 0 && self.height > 0) by (nonlinear_arith)
                    requires
                        i < self.width * self.height,
                ;
                lemma_count_around(
                    mines_on(self.board@),
                    self.width as int,
                    self.height as int,
                    i as int,
                );
            }
            let around = Game::neighbour_indices(i, self.width, self.height);
            proof {
                assert forall|j: int| 0 <= j < around.len() implies around[j] < self.board.len() by {
                    assert(as_ints(around@)[j] == around[j] as int);
                    assert(as_ints(around@).contains(around[j] as int));
                }
            }
            let count = count_mines(&around, &self.board);
            if self.board[i].bomb_neighbors as usize != count {
                return false;
            }
            i = i + 1;
        }
        true
    }

    /// Builds the board of `width` by `height` tiles that holds a mine on
    /// each tile named in `bomb_indices`, with nothing uncovered and, on
    /// every tile, the number of mines that touch it.
    ///
    /// Fails with `InvalidConfiguration` if a mine lies off the grid, which
    /// on a grid without tiles is the case for any mine at all.
    pub fn init_game_board(width: usize, height: usize, bomb_indices: &HashSet<usize>) -> (built:
        Result<Vec<Tile>, GameError>)
        requires
            width * height <= usize::MAX,
        ensures
            built is Ok <==> mines_fit(mine_positions(bomb_indices@), width * height),
            built matches Ok(board) ==> board@ == fresh_board(
                width as int,
                height as int,
                mine_positions(bomb_indices@),
            ),
            built matches Ok(board) ==> board@.len() == width * height && forall|i: int|
                0 <= i < width * height ==> {
                    &&& (#[trigger] board@[i]).is_bomb == bomb_indices@.contains(i as usize)
                    &&& !board@[i].is_revealed
                    &&& board@[i].bomb_neighbors == adjacent_mines(
                        mine_positions(bomb_indices@),
                        width as int,
                        height as int,
                        i,
                    ).len()
                },
            built matches Err(e) ==> e == GameError::InvalidConfiguration,
    {
        let size = width * height;
        if !all_below(bomb_indices, size) {
            return Err(GameError::InvalidConfiguration);
        }
        let ghost mines = mine_positions(bomb_indices@);
        let mut board: Vec<Tile> = Vec::new();
        let mut i: usize = 0;
        while i < size
            invariant
                i <= size,
                size == width * height,
                mines == mine_positions(bomb_indices@),
                board@.len() == i,
                forall|k: int|
                    0 <= k < i ==> board@[k] == fresh_tile(width as int, height as int, mines, k),
            decreases size - i,
        {
            proof {
                assert(width > 0 && height > 0) by (nonlinear_arith)
                    requires
                        i < width * height,
                ;
                lemma_count_around(mines, width as int, height as int, i as int);
            }
            let around = Game::neighbour_indices(i, width, height);
            let count = count_marked(&around, bomb_indices);
            board.push(
                Tile {
                    is_bomb: bomb_indices.contains(&i),
                    is_revealed: false,
                    bomb_neighbors: count as u8,
                },
            );
            i = i + 1;
        }
        proof {
            assert forall|i: int| 0 <= i < width * height implies mines_around(
                mines,
                width as int,
                height as int,
                i,
            ) <= 8 by {
                assert(width > 0 && height > 0) by (nonlinear_arith)
                    requires
                        0 <= i < width * height,
                ;
                lemma_count_around(mines, width as int, height as int, i);
            }
        }
        Ok(board)
    }
}

} // verus!
