//! The board as text.

use vstd::prelude::*;
use vstd::arithmetic::div_mod::lemma_fundamental_div_mod;
use crate::game::{Game, GameView};
use crate::tile::Tile;

verus! {

/// The character for the digit `d`.
pub open spec fn digit_char(d: int) -> char {
    if d == 0 {
        '0'
    } else if d == 1 {
        '1'
    } else if d == 2 {
        '2'
    } else if d == 3 {
        '3'
    } else if d == 4 {
        '4'
    } else if d == 5 {
        '5'
    } else if d == 6 {
        '6'
    } else if d == 7 {
        '7'
    } else if d == 8 {
        '8'
    } else {
        '9'
    }
}

/// The number `n` in decimal digits, without leading zeros.
pub open spec fn decimal_text(n: int) -> Seq<char>
    decreases n,
{
    if n < 10 {
        seq![digit_char(n)]
    } else {
        decimal_text(n / 10).push(digit_char(n % 10))
    }
}

/// How a tile shows: an uncovered mine as `*`, another uncovered tile as
/// its count, a covered tile as `?`.
pub open spec fn tile_text(tile: Tile) -> Seq<char> {
    if tile.is_bomb && tile.is_revealed {
        seq!['*']
    } else if tile.is_revealed {
        decimal_text(tile.bomb_neighbors as int)
    } else {
        seq!['?']
    }
}

/// The tiles of a row, each behind an `x`.
pub open spec fn cells_text(tiles: Seq<Tile>) -> Seq<char>
    decreases tiles.len(),
{
    if tiles.len() == 0 {
        Seq::empty()
    } else {
        cells_text(tiles.drop_last()).push('x') + tile_text(tiles.last())
    }
}

/// The line between two rows: `x` for every tile and every gap.
pub open spec fn border_text(width: int) -> Seq<char> {
    Seq::new((2 * width + 1) as nat, |i: int| 'x')
}

/// The first `rows` rows of the board, each closed by an `x` and followed
/// by a border, every line ending in a line feed.
pub open spec fn rows_text(board: Seq<Tile>, width: int, rows: int) -> Seq<char>
    decreases rows,
{
    if rows <= 0 {
        Seq::empty()
    } else {
        rows_text(board, width, rows - 1) + cells_text(
            board.subrange((rows - 1) * width, rows * width),
        ).push('x').push('\n') + border_text(width).push('\n')
    }
}

/// The board as text: a border, then the full rows of the board, each
/// followed by a border. Tiles past the last full row do not show.
pub open spec fn board_text(game: GameView) -> Seq<char> {
    border_text(game.width).push('\n') + rows_text(
        game.board,
        game.width,
        game.board.len() as int / game.width,
    )
}

/// The character for a digit.
fn digit(d: u8) -> (c: char)
    requires
        d < 10,
    ensures
        c == digit_char(d as int),
{
    match d {
        0 => '0',
        1 => '1',
        2 => '2',
        3 => '3',
        4 => '4',
        5 => '5',
        6 => '6',
        7 => '7',
        8 => '8',
        _ => '9',
    }
}

/// Appends the characters of `more` to `text`.
fn push_all(text: &mut Vec<char>, more: &Vec<char>)
    ensures
        final(text)@ == old(text)@ + more@,
{
    let mut k: usize = 0;
    while k < more.len()
        invariant
            k <= more.len(),
            text@ == old(text)@ + more@.take(k as int),
        decreases more.len() - k,
    {
        text.push(more[k]);
        k = k + 1;
    }
}

/// Writes out how a tile shows: `*` for an uncovered mine, the count for
/// another uncovered tile, `?` for a covered one.
pub fn render_tile(tile: &Tile) -> (text: Vec<char>)
    ensures
        text@ == tile_text(*tile),
{
    let mut text: Vec<char> = Vec::new();
    if tile.is_bomb && tile.is_revealed {
        text.push('*');
    } else if tile.is_revealed {
        let n = tile.bomb_neighbors;
        if n >= 100 {
            text.push(digit(n / 100));
        }
        if n >= 10 {
            text.push(digit((n / 10) % 10));
        }
        text.push(digit(n % 10));
        proof {
            reveal_with_fuel(decimal_text, 3);
        }
    } else {
        text.push('?');
    }
    text
}

/// Writes out the board of a game, line by line: a border of `x`, then each
/// full row with an `x` before every tile and one behind the last, and a
/// border after each row.
pub fn render_board(game: &Game) -> (text: Vec<char>)
    requires
        game.width > 0,
        2 * game.width + 1 <= usize::MAX,
    ensures
        text@ == board_text(game@),
{
    let width = game.width;
    let rows = game.board.len() / width;
    let ghost board = game.board@;
    let mut border: Vec<char> = Vec::new();
    let mut b: usize = 0;
    while b < 2 * width + 1
        invariant
            b <= 2 * width + 1 <= usize::MAX,
            border@.len() == b,
            forall|i: int| 0 <= i < b ==> border@[i] == 'x',
        decreases 2 * width + 1 - b,
    {
        border.push('x');
        b = b + 1;
    }
    let mut text: Vec<char> = Vec::new();
    push_all(&mut text, &border);
    text.push('\n');
    let mut y: usize = 0;
    while y < rows
        invariant
            y <= rows,
            width > 0,
            width == game.width,
            board == game.board@,
            rows == game.board.len() / width,
            border@ == border_text(width as int),
            text@ == border_text(width as int).push('\n') + rows_text(board, width as int, y as int),
        decreases rows - y,
    {
        proof {
            lemma_fundamental_div_mod(board.len() as int, width as int);
            assert((y + 1) * width <= board.len()) by (nonlinear_arith)
                requires
                    y + 1 <= rows,
                    width > 0,
                    board.len() == width * rows + (board.len() as int) % (width as int),
                    (board.len() as int) % (width as int) >= 0,
            ;
            assert((y + 1) * width == y * width + width) by (nonlinear_arith);
            assert(y * width >= 0) by (nonlinear_arith)
                requires
                    y >= 0,
                    width > 0,
            ;
        }
        let first = y * width;
        let ghost head = text@;
        let mut x: usize = 0;
        while x < width
            invariant
                x <= width,
                first + width <= game.board.len(),
                board == game.board@,
                text@ == head + cells_text(board.subrange(first as int, first + x)),
            decreases width - x,
        {
            text.push('x');
            let shown = render_tile(&game.board[first + x]);
            push_all(&mut text, &shown);
            proof {
                let upto = board.subrange(first as int, first + x);
                let next = board.subrange(first as int, first + x + 1);
                assert(next.drop_last() =~= upto);
            }
            x = x + 1;
        }
        text.push('x');
        text.push('\n');
        push_all(&mut text, &border);
        text.push('\n');
        proof {
            let row = cells_text(board.subrange(y * width, (y + 1) * width));
            assert(text@ =~= head + (row.push('x').push('\n') + border_text(width as int).push('\n')));
            assert(rows_text(board, width as int, y + 1) =~= rows_text(board, width as int, y as int)
                + row.push('x').push('\n') + border_text(width as int).push('\n'));
            assert(text@ =~= border_text(width as int).push('\n') + rows_text(
                board,
                width as int,
                y + 1,
            ));
        }
        y = y + 1;
    }
    text
}

} // verus!
