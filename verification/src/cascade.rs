//! Uncovering a tile, and the region without adjacent mines around it.

use vstd::prelude::*;
use crate::game::{Game, GameView, mines_on};
use crate::grid::{adjacent, as_ints};
use crate::tile::Tile;

verus! {

/// Whether uncovering `a` uncovers `b` with it: `b` touches `a`, no mine
/// touches `a`, and `b` is still covered.
pub open spec fn spreads(g: GameView, a: int, b: int) -> bool {
    &&& adjacent(g.width, g.height, a, b)
    &&& g.board[a].bomb_neighbors == 0
    &&& !g.board[b].is_revealed
}

/// Whether each cell of `path` uncovers the next one.
pub open spec fn is_cascade_path(g: GameView, path: Seq<int>) -> bool {
    &&& path.len() >= 1
    &&& forall|k: int| 0 <= k < path.len() - 1 ==> spreads(g, #[trigger] path[k], path[k + 1])
}

/// Whether uncovering `start` leads, step by step, to uncovering `t`.
pub open spec fn cascade_reaches(g: GameView, start: int, t: int) -> bool {
    exists|path: Seq<int>| #[trigger]
        is_cascade_path(g, path) && path.first() == start && path.last() == t
}

/// The game after the cascade from `start`: every tile that the cascade
/// reaches is uncovered, and nothing else changes.
pub open spec fn cascade_model(g: GameView, start: int) -> GameView {
    GameView {
        width: g.width,
        height: g.height,
        board: Seq::new(
            g.board.len(),
            |t: int|
                if cascade_reaches(g, start, t) {
                    g.board[t].uncovered()
                } else {
                    g.board[t]
                },
        ),
    }
}

/// The game with tile `ix` uncovered and nothing else changed.
pub open spec fn mark_model(g: GameView, ix: int) -> GameView {
    GameView { width: g.width, height: g.height, board: g.board.update(ix, g.board[ix].uncovered()) }
}

/// The game after the player uncovers tile `ix`. A tile that is uncovered
/// already changes nothing. A mine is uncovered alone. A safe tile is
/// uncovered together with all that the cascade from it reaches.
pub open spec fn reveal_model(g: GameView, ix: int) -> GameView {
    if g.board[ix].is_revealed {
        g
    } else if g.board[ix].is_bomb {
        mark_model(g, ix)
    } else {
        cascade_model(mark_model(g, ix), ix)
    }
}

/// Number of covered tiles.
spec fn hidden_count(board: Seq<Tile>) -> nat
    decreases board.len(),
{
    if board.len() == 0 {
        0
    } else {
        hidden_count(board.drop_last()) + if board.last().is_revealed {
            0nat
        } else {
            1nat
        }
    }
}

/// Two games of the same dimensions whose tiles differ at most in what is
/// uncovered.
pub open spec fn same_layout(g: GameView, cur: GameView) -> bool {
    &&& cur.width == g.width
    &&& cur.height == g.height
    &&& cur.board.len() == g.board.len()
    &&& forall|t: int|
        0 <= t < g.board.len() ==> (#[trigger] cur.board[t]).is_bomb == g.board[t].is_bomb
            && cur.board[t].bomb_neighbors == g.board[t].bomb_neighbors
}

/// Every tile uncovered in `g` is uncovered in `cur`, and every other tile
/// uncovered in `cur` is one that the cascade from `start` reaches.
spec fn reveals_only_reached(g: GameView, cur: GameView, start: int) -> bool {
    forall|t: int|
        0 <= t < g.board.len() ==> (g.board[t].is_revealed ==> (#[trigger] cur.board[t]).is_revealed)
            && (cur.board[t].is_revealed ==> g.board[t].is_revealed || cascade_reaches(g, start, t))
}

/// A tile from which the cascade goes on: the start, or a tile uncovered
/// since, that no mine touches.
spec fn is_source(g: GameView, cur: GameView, start: int, a: int) -> bool {
    &&& 0 <= a < g.board.len()
    &&& g.board[a].bomb_neighbors == 0
    &&& cur.board[a].is_revealed
    &&& (a == start || !g.board[a].is_revealed)
}

/// Every tile that touches `a` is uncovered.
spec fn expanded(g: GameView, cur: GameView, a: int) -> bool {
    forall|b: int| #[trigger] adjacent(g.width, g.height, a, b) ==> cur.board[b].is_revealed
}

/// Every source but `current` and those in `pending` has all the tiles
/// around it uncovered.
spec fn closed_but(
    g: GameView,
    cur: GameView,
    start: int,
    pending: Seq<usize>,
    current: Option<int>,
) -> bool {
    forall|a: int| #[trigger]
        is_source(g, cur, start, a) ==> expanded(g, cur, a) || pending.contains(a as usize)
            || current == Some(a)
}

/// Every entry of `pending` is a source that the cascade reaches.
spec fn sources_listed(g: GameView, cur: GameView, start: int, pending: Seq<usize>) -> bool {
    forall|q: int|
        0 <= q < pending.len() ==> is_source(g, cur, start, (#[trigger] pending[q]) as int)
            && cascade_reaches(g, start, pending[q] as int)
}

/// Uncovering a covered tile leaves one covered tile fewer.
proof fn lemma_uncover_decreases(board: Seq<Tile>, n: int)
    requires
        0 <= n < board.len(),
        !board[n].is_revealed,
    ensures
        hidden_count(board.update(n, board[n].uncovered())) + 1 == hidden_count(board),
    decreases board.len(),
{
    let after = board.update(n, board[n].uncovered());
    if n == board.len() - 1 {
        assert(after.drop_last() =~= board.drop_last());
    } else {
        lemma_uncover_decreases(board.drop_last(), n);
        assert(after.drop_last() =~= board.drop_last().update(n, board[n].uncovered()));
    }
}

/// The cascade reaches its own start.
proof fn lemma_reaches_start(g: GameView, start: int)
    ensures
        cascade_reaches(g, start, start),
{
    let path = seq![start];
    assert(is_cascade_path(g, path));
    assert(path.first() == start && path.last() == start);
}

/// Whatever the cascade reaches, it carries one step further.
pub proof fn lemma_reaches_step(g: GameView, start: int, a: int, b: int)
    requires
        cascade_reaches(g, start, a),
        spreads(g, a, b),
    ensures
        cascade_reaches(g, start, b),
{
    let path = choose|path: Seq<int>| #[trigger]
        is_cascade_path(g, path) && path.first() == start && path.last() == a;
    let longer = path.push(b);
    assert forall|k: int| 0 <= k < longer.len() - 1 implies spreads(
        g,
        #[trigger] longer[k],
        longer[k + 1],
    ) by {
        if k < path.len() - 1 {
            assert(spreads(g, path[k], path[k + 1]));
        }
    }
    assert(is_cascade_path(g, longer));
    assert(longer.first() == start && longer.last() == b);
}

/// From a tile that a mine touches the cascade goes nowhere.
proof fn lemma_no_spread_from_counted(g: GameView, start: int)
    requires
        0 <= start < g.board.len(),
        g.board[start].is_revealed,
        g.board[start].bomb_neighbors != 0,
    ensures
        cascade_model(g, start) == g,
{
    assert forall|t: int| 0 <= t < g.board.len() && cascade_reaches(g, start, t) implies t
        == start by {
        let path = choose|path: Seq<int>| #[trigger]
            is_cascade_path(g, path) && path.first() == start && path.last() == t;
        if path.len() > 1 {
            assert(spreads(g, path[0], path[0int + 1]));
        }
    }
    assert(cascade_model(g, start).board =~= g.board);
}

/// On a board where every source has all the tiles around it uncovered,
/// the last cell of a path from `start` is uncovered.
proof fn lemma_closed_board_covers_path(g: GameView, cur: GameView, start: int, path: Seq<int>)
    requires
        same_layout(g, cur),
        0 <= start < g.board.len(),
        g.board.len() == g.width * g.height,
        cur.board[start].is_revealed,
        closed_but(g, cur, start, Seq::empty(), None),
        is_cascade_path(g, path),
        path.first() == start,
    ensures
        0 <= path.last() < g.board.len(),
        cur.board[path.last()].is_revealed,
    decreases path.len(),
{
    if path.len() > 1 {
        let init = path.drop_last();
        let last = path.len() - 1;
        assert forall|k: int| 0 <= k < init.len() - 1 implies spreads(
            g,
            #[trigger] init[k],
            init[k + 1],
        ) by {
            assert(spreads(g, path[k], path[k + 1]));
        }
        lemma_closed_board_covers_path(g, cur, start, init);
        let a = path[last - 1];
        let b = path[last];
        assert(a == init.last());
        assert(spreads(g, path[last - 1], path[last - 1 + 1]));
        if last - 1 > 0 {
            assert(spreads(g, path[last - 2], path[last - 2 + 1]));
        }
        assert(is_source(g, cur, start, a));
        assert(!Seq::<usize>::empty().contains(a as usize));
        assert(expanded(g, cur, a));
        assert(adjacent(g.width, g.height, a, b));
    }
}

/// Tiles that differ at most in what is uncovered hold the same mines and
/// count them alike.
pub proof fn lemma_same_layout_wf(g: GameView, cur: GameView)
    requires
        g.wf(),
        same_layout(g, cur),
    ensures
        cur.wf(),
{
    assert(mines_on(cur.board) =~= mines_on(g.board));
}

/// What holds while the cascade from `start` runs on the game `g`, with
/// `cur` the game as it stands, `pending` the tiles that wait to be looked
/// at and `current` the tile being looked at.
#[verifier::opaque]
spec fn cascading(
    g: GameView,
    cur: GameView,
    start: int,
    pending: Seq<usize>,
    current: Option<int>,
) -> bool {
    &&& g.wf()
    &&& g.board.len() <= usize::MAX
    &&& 0 <= start < g.board.len()
    &&& g.board[start].is_revealed
    &&& same_layout(g, cur)
    &&& reveals_only_reached(g, cur, start)
    &&& sources_listed(g, cur, start, pending)
    &&& closed_but(g, cur, start, pending, current)
    &&& current matches Some(c) ==> is_source(g, cur, start, c) && cascade_reaches(g, start, c)
}

/// The cascade begins with the start alone in the list.
proof fn lemma_cascade_begins(g: GameView, start: int)
    requires
        g.wf(),
        g.board.len() <= usize::MAX,
        0 <= start < g.board.len(),
        g.board[start].is_revealed,
        g.board[start].bomb_neighbors == 0,
    ensures
        cascading(g, g, start, seq![start as usize], None),
{
    reveal(cascading);
    let pending = seq![start as usize];
    lemma_reaches_start(g, start);
    assert forall|a: int| #[trigger] is_source(g, g, start, a) implies expanded(g, g, a)
        || pending.contains(a as usize) || None::<int> == Some(a) by {
        assert(a == start);
        assert(pending[0] == start as usize);
    }
}

/// Taking the last tile from the list to look at it.
proof fn lemma_cascade_pops(g: GameView, cur: GameView, start: int, listed: Seq<usize>)
    requires
        cascading(g, cur, start, listed, None),
        listed.len() > 0,
    ensures
        cascading(g, cur, start, listed.drop_last(), Some(listed.last() as int)),
        listed.last() < g.board.len(),
        cur.width == g.width,
        cur.height == g.height,
        cur.board.len() == g.board.len(),
        g.board.len() == g.width * g.height,
        g.board.len() <= usize::MAX,
        g.width >= 0,
        g.height >= 0,
{
    reveal(cascading);
    let pending = listed.drop_last();
    let current = listed.last() as int;
    assert(is_source(g, cur, start, listed[listed.len() - 1] as int));
    assert forall|a: int| #[trigger] is_source(g, cur, start, a) implies expanded(g, cur, a)
        || pending.contains(a as usize) || Some(current) == Some(a) by {
        if listed.contains(a as usize) && a != current {
            let q = choose|q: int| 0 <= q < listed.len() && listed[q] == a as usize;
            assert(pending[q] == a as usize);
        }
    }
    assert forall|q: int| 0 <= q < pending.len() implies is_source(
        g,
        cur,
        start,
        (#[trigger] pending[q]) as int,
    ) && cascade_reaches(g, start, pending[q] as int) by {
        assert(pending[q] == listed[q]);
    }
}

/// Uncovering a covered tile `n` beside the tile being looked at, and
/// listing it if no mine touches it.
proof fn lemma_cascade_uncovers(
    g: GameView,
    prev: GameView,
    start: int,
    queued: Seq<usize>,
    current: int,
    n: int,
)
    requires
        cascading(g, prev, start, queued, Some(current)),
        adjacent(g.width, g.height, current, n),
        !prev.board[n].is_revealed,
    ensures
        cascading(
            g,
            mark_model(prev, n),
            start,
            if prev.board[n].bomb_neighbors == 0 {
                queued.push(n as usize)
            } else {
                queued
            },
            Some(current),
        ),
        hidden_count(mark_model(prev, n).board) + 1 == hidden_count(prev.board),
{
    reveal(cascading);
    let cur = mark_model(prev, n);
    let pending = if prev.board[n].bomb_neighbors == 0 {
        queued.push(n as usize)
    } else {
        queued
    };
    lemma_uncover_decreases(prev.board, n);
    assert(spreads(g, current, n));
    lemma_reaches_step(g, start, current, n);
    assert(same_layout(g, cur));
    assert(reveals_only_reached(g, cur, start));
    assert forall|q: int| 0 <= q < pending.len() implies is_source(
        g,
        cur,
        start,
        (#[trigger] pending[q]) as int,
    ) && cascade_reaches(g, start, pending[q] as int) by {
        if q < queued.len() {
            assert(is_source(g, prev, start, queued[q] as int));
        }
    }
    assert forall|a: int| #[trigger] is_source(g, cur, start, a) implies expanded(g, cur, a)
        || pending.contains(a as usize) || Some(current) == Some(a) by {
        if a == n {
            assert(pending[pending.len() - 1] == n as usize);
        } else {
            assert(is_source(g, prev, start, a));
            if queued.contains(a as usize) {
                let q = choose|q: int| 0 <= q < queued.len() && queued[q] == a as usize;
                assert(pending[q] == a as usize);
            } else if a != current {
                assert(expanded(g, prev, a));
                assert forall|b: int| #[trigger]
                    adjacent(g.width, g.height, a, b) implies cur.board[b].is_revealed by {
                    assert(prev.board[b].is_revealed);
                }
            }
        }
    }
    assert(is_source(g, prev, start, current));
}

/// Once every tile around the one being looked at is uncovered, that tile
/// is done with.
proof fn lemma_cascade_leaves(
    g: GameView,
    cur: GameView,
    start: int,
    pending: Seq<usize>,
    current: int,
)
    requires
        cascading(g, cur, start, pending, Some(current)),
        expanded(g, cur, current),
    ensures
        cascading(g, cur, start, pending, None),
{
    reveal(cascading);
    assert forall|a: int| #[trigger] is_source(g, cur, start, a) implies expanded(g, cur, a)
        || pending.contains(a as usize) || None::<int> == Some(a) by {}
}

/// With nothing left in the list, the game is what the cascade makes of it.
proof fn lemma_cascade_ends(g: GameView, cur: GameView, start: int)
    requires
        cascading(g, cur, start, Seq::empty(), None),
    ensures
        cur == cascade_model(g, start),
{
    reveal(cascading);
    assert forall|t: int| 0 <= t < g.board.len() implies #[trigger] cur.board[t] == cascade_model(
        g,
        start,
    ).board[t] by {
        if cascade_reaches(g, start, t) {
            let path = choose|path: Seq<int>| #[trigger]
                is_cascade_path(g, path) && path.first() == start && path.last() == t;
            lemma_closed_board_covers_path(g, cur, start, path);
        }
    }
    assert(cur.board =~= cascade_model(g, start).board);
}

impl Game {
    /// Uncovers every tile that the cascade from tile `index` reaches.
    ///
    /// The tiles still to be looked at wait in a list, so the depth of the
    /// call stack does not grow with the board.
    pub(crate) fn auto_reveal_safe_neighbours(&mut self, index: usize)
        requires
            old(self).wf(),
            index < old(self).board.len(),
            old(self).board[index as int].is_revealed,
        ensures
            final(self)@ == cascade_model(old(self)@, index as int),
    {
        let ghost before = self@;
        if self.board[index].bomb_neighbors > 0 {
            proof {
                lemma_no_spread_from_counted(before, index as int);
            }
            return ;
        }
        let mut pending: Vec<usize> = Vec::new();
        pending.push(index);
        proof {
            lemma_cascade_begins(before, index as int);
        }
        while pending.len() > 0
            invariant
                cascading(before, self@, index as int, pending@, None),
            decreases 2 * hidden_count(self.board@) + pending.len(),
        {
            proof {
                lemma_cascade_pops(before, self@, index as int, pending@);
            }
            let ghost at_pop = self@;
            let ghost listed = pending@;
            let current = pending.pop().unwrap();
            let around = Game::neighbour_indices(current, self.width, self.height);
            proof {
                assert forall|j: int| 0 <= j < around.len() implies adjacent(
                    before.width,
                    before.height,
                    current as int,
                    (#[trigger] around[j]) as int,
                ) by {
                    assert(as_ints(around@)[j] == around[j] as int);
                    assert(as_ints(around@).contains(around[j] as int));
                }
            }
            let mut k: usize = 0;
            while k < around.len()
                invariant
                    k <= around.len(),
                    forall|j: int|
                        0 <= j < around.len() ==> adjacent(
                            before.width,
                            before.height,
                            current as int,
                            (#[trigger] around[j]) as int,
                        ),
                    self.board.len() == before.board.len(),
                    before.board.len() == before.width * before.height,
                    cascading(before, self@, index as int, pending@, Some(current as int)),
                    forall|j: int| 0 <= j < k ==> self.board[(#[trigger] around[j]) as int].is_revealed,
                    2 * hidden_count(self.board@) + pending.len() + 1 <= 2 * hidden_count(at_pop.board)
                        + listed.len(),
                decreases around.len() - k,
            {
                let n = around[k];
                let ghost prev = self@;
                if !self.board[n].is_revealed {
                    proof {
                        lemma_cascade_uncovers(
                            before,
                            prev,
                            index as int,
                            pending@,
                            current as int,
                            n as int,
                        );
                    }
                    let tile = self.board[n];
                    self.board[n] = tile.uncover();
                    if tile.bomb_neighbors == 0 {
                        pending.push(n);
                    }
                }
                k = k + 1;
            }
            proof {
                assert forall|b: int| #[trigger]
                    adjacent(before.width, before.height, current as int, b) implies self@.board[b].is_revealed by {
                    assert(as_ints(around@).contains(b));
                    let j = choose|j: int| 0 <= j < around@.len() && as_ints(around@)[j] == b;
                    assert(as_ints(around@)[j] == around[j] as int);
                }
                lemma_cascade_leaves(before, self@, index as int, pending@, current as int);
            }
        }
        proof {
            assert(pending@ =~= Seq::<usize>::empty());
            lemma_cascade_ends(before, self@, index as int);
        }
    }
}

} // verus!
