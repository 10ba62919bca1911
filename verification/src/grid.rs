//! Geometry of the board: which cells touch which.

use vstd::prelude::*;
use vstd::arithmetic::div_mod::{lemma_fundamental_div_mod, lemma_fundamental_div_mod_converse};
use vstd::seq_lib::{lemma_no_dup_in_concat, seq_to_set_distributes_over_add};
use crate::game::Game;

verus! {

/// Whether `i` addresses a cell of a grid of `width` by `height` cells.
pub open spec fn on_grid(width: int, height: int, i: int) -> bool {
    width > 0 && height > 0 && 0 <= i < width * height
}

/// Column of cell `i` in a row-major grid `width` cells wide.
pub open spec fn column_of(width: int, i: int) -> int {
    i % width
}

/// Row of cell `i` in a row-major grid `width` cells wide.
pub open spec fn row_of(width: int, i: int) -> int {
    i / width
}

/// Whether `a` and `b` are distinct cells of the grid that touch by a side
/// or a corner. Cells at opposite ends of consecutive rows do not touch.
pub open spec fn adjacent(width: int, height: int, a: int, b: int) -> bool {
    &&& on_grid(width, height, a)
    &&& on_grid(width, height, b)
    &&& a != b
    &&& -1 <= column_of(width, b) - column_of(width, a) <= 1
    &&& -1 <= row_of(width, b) - row_of(width, a) <= 1
}

/// The one-element sequence `[j]` if `present`, the empty one otherwise.
pub open spec fn cell_if(present: bool, j: int) -> Seq<int> {
    if present {
        seq![j]
    } else {
        Seq::empty()
    }
}

/// The cells that touch cell `i`, in the order in which the board lists
/// them: the row above (middle, left, right), then left and right, then the
/// row below (middle, left, right).
pub open spec fn neighbours(width: int, height: int, i: int) -> Seq<int> {
    let left = i % width != 0;
    let right = i % width != width - 1;
    let up = i >= width;
    let down = i < width * (height - 1);
    cell_if(up, i - width) + cell_if(up && left, i - width - 1) + cell_if(
        up && right,
        i - width + 1,
    ) + cell_if(left, i - 1) + cell_if(right, i + 1) + cell_if(down, i + width) + cell_if(
        down && left,
        i + width - 1,
    ) + cell_if(down && right, i + width + 1)
}

/// The sequence of integers that a vector of indices stands for.
pub open spec fn as_ints(v: Seq<usize>) -> Seq<int> {
    v.map_values(|j: usize| j as int)
}

/// Row and column of a cell pin it down, and the cell pins them down.
pub proof fn lemma_row_column(width: int, i: int, row: int, column: int)
    requires
        width > 0,
        0 <= column < width,
        i == row * width + column,
    ensures
        row_of(width, i) == row,
        column_of(width, i) == column,
{
    lemma_fundamental_div_mod_converse(i, width, row, column);
}

/// A cell of the grid lies in one of its rows and one of its columns.
pub proof fn lemma_cell_coordinates(width: int, height: int, i: int)
    requires
        on_grid(width, height, i),
    ensures
        i == row_of(width, i) * width + column_of(width, i),
        0 <= column_of(width, i) < width,
        0 <= row_of(width, i) < height,
{
    lemma_fundamental_div_mod(i, width);
    let r = i / width;
    let c = i % width;
    assert(width * r == r * width) by (nonlinear_arith);
    assert(0 <= r < height) by (nonlinear_arith)
        requires
            i == r * width + c,
            0 <= c < width,
            0 <= i < width * height,
            width > 0,
    ;
}

/// What `cell_if` holds.
proof fn lemma_cell_if(present: bool, j: int)
    ensures
        cell_if(present, j).to_set() == if present {
            Set::<int>::empty().insert(j)
        } else {
            Set::<int>::empty()
        },
        cell_if(present, j).no_duplicates(),
        cell_if(present, j).len() <= 1,
{
    assert(cell_if(present, j).to_set() =~= if present {
        Set::<int>::empty().insert(j)
    } else {
        Set::<int>::empty()
    }) by {
        if present {
            assert(cell_if(present, j)[0] == j);
        }
    }
}

/// Appending an optional cell that is not yet listed keeps a list free of
/// repetitions, and adds that cell to what the list holds.
proof fn lemma_append_cell(s: Seq<int>, present: bool, j: int)
    requires
        s.no_duplicates(),
        present ==> !s.to_set().contains(j),
    ensures
        (s + cell_if(present, j)).no_duplicates(),
        (s + cell_if(present, j)).to_set() == if present {
            s.to_set().insert(j)
        } else {
            s.to_set()
        },
        (s + cell_if(present, j)).len() <= s.len() + 1,
{
    lemma_cell_if(present, j);
    seq_to_set_distributes_over_add(s, cell_if(present, j));
    assert forall|a: int, b: int| 0 <= a < s.len() && 0 <= b < cell_if(present, j).len() implies s[a]
        != cell_if(present, j)[b] by {
        assert(s.to_set().contains(s[a]));
    }
    lemma_no_dup_in_concat(s, cell_if(present, j));
    assert((s + cell_if(present, j)).to_set() =~= if present {
        s.to_set().insert(j)
    } else {
        s.to_set()
    });
}

/// The cell one step away from `i`, by `dy` rows and `dx` columns, touches
/// `i` wherever that step stays on the grid.
pub proof fn lemma_step_touches(width: int, height: int, i: int, dy: int, dx: int)
    requires
        on_grid(width, height, i),
        -1 <= dy <= 1,
        -1 <= dx <= 1,
        dy != 0 || dx != 0,
        0 <= row_of(width, i) + dy < height,
        0 <= column_of(width, i) + dx < width,
    ensures
        adjacent(width, height, i, i + dy * width + dx),
        row_of(width, i + dy * width + dx) == row_of(width, i) + dy,
        column_of(width, i + dy * width + dx) == column_of(width, i) + dx,
{
    let x = column_of(width, i);
    let y = row_of(width, i);
    let j = i + dy * width + dx;
    lemma_cell_coordinates(width, height, i);
    assert(j == (y + dy) * width + (x + dx)) by (nonlinear_arith)
        requires
            j == i + dy * width + dx,
            i == y * width + x,
    ;
    lemma_row_column(width, j, y + dy, x + dx);
    assert(0 <= (y + dy) * width && (y + dy) * width + width <= width * height)
        by (nonlinear_arith)
        requires
            0 <= y + dy < height,
            width > 0,
    ;
    assert(j != i) by (nonlinear_arith)
        requires
            j == i + dy * width + dx,
            -1 <= dy <= 1,
            -1 <= dx <= 1,
            dy != 0 || dx != 0,
            0 <= x + dx < width,
            0 <= x < width,
    ;
}

/// The list of neighbours holds each cell that touches `i` exactly once,
/// and nothing else.
pub proof fn lemma_neighbours_are_the_adjacent_cells(width: int, height: int, i: int)
    requires
        on_grid(width, height, i),
    ensures
        forall|j: int| #[trigger] neighbours(width, height, i).contains(j) <==> adjacent(width, height, i, j),
        neighbours(width, height, i).no_duplicates(),
        neighbours(width, height, i).len() <= 8,
{
    let x = column_of(width, i);
    let y = row_of(width, i);
    lemma_cell_coordinates(width, height, i);
    let left = i % width != 0;
    let right = i % width != width - 1;
    let up = i >= width;
    let down = i < width * (height - 1);
    assert(up <==> y >= 1) by (nonlinear_arith)
        requires
            i == y * width + x,
            0 <= x < width,
            0 <= y,
            up == (i >= width),
    ;
    assert(down <==> y + 1 < height) by (nonlinear_arith)
        requires
            i == y * width + x,
            0 <= x < width,
            0 <= y < height,
            down == (i < width * (height - 1)),
    ;
    assert((-1) * width == -width && 0 * width == 0 && 1 * width == width) by (nonlinear_arith);
    if up {
        lemma_step_touches(width, height, i, -1, 0);
        if left {
            lemma_step_touches(width, height, i, -1, -1);
        }
        if right {
            lemma_step_touches(width, height, i, -1, 1);
        }
    }
    if left {
        lemma_step_touches(width, height, i, 0, -1);
    }
    if right {
        lemma_step_touches(width, height, i, 0, 1);
    }
    if down {
        lemma_step_touches(width, height, i, 1, 0);
        if left {
            lemma_step_touches(width, height, i, 1, -1);
        }
        if right {
            lemma_step_touches(width, height, i, 1, 1);
        }
    }
    let s0 = Seq::<int>::empty();
    let s1 = s0 + cell_if(up, i - width);
    let s2 = s1 + cell_if(up && left, i - width - 1);
    let s3 = s2 + cell_if(up && right, i - width + 1);
    let s4 = s3 + cell_if(left, i - 1);
    let s5 = s4 + cell_if(right, i + 1);
    let s6 = s5 + cell_if(down, i + width);
    let s7 = s6 + cell_if(down && left, i + width - 1);
    let s8 = s7 + cell_if(down && right, i + width + 1);
    assert(s0.to_set() =~= Set::<int>::empty());
    lemma_append_cell(s0, up, i - width);
    lemma_append_cell(s1, up && left, i - width - 1);
    lemma_append_cell(s2, up && right, i - width + 1);
    lemma_append_cell(s3, left, i - 1);
    lemma_append_cell(s4, right, i + 1);
    lemma_append_cell(s5, down, i + width);
    lemma_append_cell(s6, down && left, i + width - 1);
    lemma_append_cell(s7, down && right, i + width + 1);
    assert(s1 =~= cell_if(up, i - width));
    assert(s8 == neighbours(width, height, i));
    assert forall|j: int| #[trigger]
        neighbours(width, height, i).contains(j) <==> adjacent(width, height, i, j) by {
        assert(s8.contains(j) <==> s8.to_set().contains(j));
        if adjacent(width, height, i, j) {
            lemma_cell_coordinates(width, height, j);
            let dx = column_of(width, j) - x;
            let dy = row_of(width, j) - y;
            assert(j == i + dy * width + dx) by (nonlinear_arith)
                requires
                    j == (y + dy) * width + (x + dx),
                    i == y * width + x,
            ;
            assert(dy == -1 || dy == 0 || dy == 1);
            assert(dy * width == if dy == -1 {
                -width
            } else if dy == 0 {
                0
            } else {
                width
            }) by (nonlinear_arith)
                requires
                    dy == -1 || dy == 0 || dy == 1,
            ;
            assert(s8.to_set().contains(j));
        }
    }
}

impl Game {
    /// Lists the cells that touch cell `i` on a grid of `width` by `height`
    /// cells, each of them once: three, five or eight of them on a grid with
    /// at least two rows and two columns, and never one from across a row's
    /// end. The row above comes first (middle, left, right), then the cells
    /// to the left and to the right, then the row below (middle, left,
    /// right).
    pub fn neighbour_indices(i: usize, width: usize, height: usize) -> (found: Vec<usize>)
        requires
            i < width * height,
            width * height <= usize::MAX,
        ensures
            as_ints(found@) == neighbours(width as int, height as int, i as int),
            forall|j: int|
                #[trigger] as_ints(found@).contains(j) <==> adjacent(
                    width as int,
                    height as int,
                    i as int,
                    j,
                ),
            as_ints(found@).no_duplicates(),
            found@.len() <= 8,
    {
        proof {
            assert(width > 0 && height > 0) by (nonlinear_arith)
                requires
                    i < width * height,
            ;
            lemma_cell_coordinates(width as int, height as int, i as int);
            assert(width * (height - 1) == width * height - width) by (nonlinear_arith);
            lemma_row_column(width as int, width as int, 1, 0);
            lemma_row_column(width as int, 0, 0, 0);
            lemma_neighbours_are_the_adjacent_cells(width as int, height as int, i as int);
        }
        let on_left_edge = i % width == 0;
        let on_top_row = i < width;
        let on_right_edge = i % width == width - 1;
        let on_bottom_row = i >= width * (height - 1);

        let mut found: Vec<usize> = Vec::new();

        if !on_top_row {
            found.push(i - width);
            if !on_left_edge {
                found.push(i - width - 1);
            }
            if !on_right_edge {
                found.push(i - width + 1);
            }
        }
        if !on_left_edge {
            found.push(i - 1);
        }
        if !on_right_edge {
            found.push(i + 1);
        }
        if !on_bottom_row {
            found.push(i + width);
            if !on_left_edge {
                found.push(i + width - 1);
            }
            if !on_right_edge {
                found.push(i + width + 1);
            }
        }
        assert(as_ints(found@) =~= neighbours(width as int, height as int, i as int));
        found
    }
}

} // verus!
