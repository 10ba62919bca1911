use minesweeper::{render_board, render_tile, Game, GameState, Tile};
use std::collections::HashSet;

fn text_of(chars: Vec<char>) -> String {
    chars.into_iter().collect()
}

fn start(width: usize, height: usize, items: &[usize]) -> Game {
    let mut set = HashSet::new();
    for item in items {
        set.insert(*item);
    }
    match Game::new(width, height, &set).unwrap() {
        GameState::InProgress(g) => g,
        _ => panic!("the game is over before the first move"),
    }
}

#[test]
fn covered_tile_shows_a_question_mark() {
    for is_bomb in [false, true] {
        let tile = Tile { is_bomb, is_revealed: false, bomb_neighbors: 3 };
        assert_eq!(text_of(render_tile(&tile)), "?");
    }
}

#[test]
fn uncovered_mine_shows_a_star() {
    let tile = Tile { is_bomb: true, is_revealed: true, bomb_neighbors: 3 };
    assert_eq!(text_of(render_tile(&tile)), "*");
}

#[test]
fn uncovered_safe_tile_shows_its_count() {
    for n in 0..=255u8 {
        let tile = Tile { is_bomb: false, is_revealed: true, bomb_neighbors: n };
        assert_eq!(text_of(render_tile(&tile)), n.to_string());
    }
    let tile = Tile { is_bomb: false, is_revealed: true, bomb_neighbors: 8 };
    assert_eq!(render_tile(&tile), vec!['8']);
    let tile = Tile { is_bomb: false, is_revealed: true, bomb_neighbors: 105 };
    assert_eq!(render_tile(&tile), vec!['1', '0', '5']);
}

#[test]
fn fresh_board_shows_question_marks_between_borders() {
    let game = start(2, 2, &[0]);
    assert_eq!(text_of(render_board(&game)), "xxxxx\nx?x?x\nxxxxx\nx?x?x\nxxxxx\n");
}

#[test]
fn board_shows_what_is_uncovered() {
    let game = start(3, 2, &[2]);
    let game = match game.reveal_index(0).unwrap() {
        GameState::InProgress(g) => g,
        _ => panic!("the game should go on"),
    };
    assert_eq!(text_of(render_board(&game)), "xxxxxxx\nx0x1x?x\nxxxxxxx\nx0x1x?x\nxxxxxxx\n");
    let shown_mine = Tile { is_bomb: true, is_revealed: true, bomb_neighbors: 0 };
    let lost = Game { width: 1, height: 1, board: vec![shown_mine] };
    assert_eq!(text_of(render_board(&lost)), "xxx\nx*x\nxxx\n");
}

#[test]
fn board_without_tiles_shows_one_border() {
    let game = Game { width: 3, height: 0, board: vec![] };
    assert_eq!(text_of(render_board(&game)), "xxxxxxx\n");
}

#[test]
fn tiles_past_the_last_full_row_do_not_show() {
    let covered = Tile { is_bomb: false, is_revealed: false, bomb_neighbors: 0 };
    let game = Game { width: 2, height: 2, board: vec![covered; 5] };
    assert_eq!(text_of(render_board(&game)), "xxxxx\nx?x?x\nxxxxx\nx?x?x\nxxxxx\n");
    let game = Game { width: 2, height: 1, board: vec![covered; 1] };
    assert_eq!(text_of(render_board(&game)), "xxxxx\n");
}

#[test]
fn games_from_the_library_are_valid() {
    assert!(start(3, 3, &[0, 4]).is_valid());
    assert!(start(1, 1, &[]).is_valid());
    let game = match start(4, 4, &[5]).reveal_index(15).unwrap() {
        GameState::InProgress(g) => g,
        _ => panic!("the game should go on"),
    };
    assert!(game.is_valid());
    for count in 0..9 {
        match Game::new_random(3, 3, count).unwrap() {
            GameState::InProgress(g) => assert!(g.is_valid()),
            _ => assert_eq!(count, 9),
        }
    }
}

#[test]
fn game_with_a_wrong_count_or_size_is_not_valid() {
    let mut game = start(3, 3, &[0, 4]);
    game.board[8].bomb_neighbors = 2;
    assert!(!game.is_valid());

    let mut game = start(3, 3, &[0, 4]);
    game.board[1].is_bomb = true;
    assert!(!game.is_valid());

    let mut game = start(3, 3, &[0, 4]);
    game.board.pop();
    assert!(!game.is_valid());

    let mut game = start(3, 3, &[0, 4]);
    game.width = 9;
    game.height = 1;
    assert!(!game.is_valid());

    let game = Game { width: usize::MAX, height: 2, board: vec![] };
    assert!(!game.is_valid());
    let game = Game { width: usize::MAX, height: 0, board: vec![] };
    assert!(game.is_valid());
}
