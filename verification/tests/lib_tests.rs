use minesweeper::random::all_indices;
use minesweeper::{FinishedGame, Game, GameError, GameState, Tile};
use std::collections::HashSet;

fn hash_set(items: &[usize]) -> HashSet<usize> {
    let mut set = HashSet::new();
    for item in items {
        set.insert(*item);
    }
    set
}

fn to_in_progress(s: GameState) -> Game {
    match s {
        GameState::InProgress(g) => g,
        _ => panic!(),
    }
}

fn to_finished_game(s: GameState) -> FinishedGame {
    match s {
        GameState::Won(g) => g,
        GameState::Lost(g) => g,
        _ => panic!("State was InProgress"),
    }
}

#[test]
fn game_with_unrevealed_non_bomb_tile_should_be_in_progress() {
    let state = Game::new_random(1, 1, 0).unwrap();
    assert!(matches!(state, GameState::InProgress(_)));
}

#[test]
fn game_with_revealed_bomb_tile_should_be_lost() {
    let state = Game::new(2, 1, &hash_set(&[0])).unwrap();
    let lost_game = to_in_progress(state).reveal_at(0, 0).unwrap();
    assert!(matches!(lost_game, GameState::Lost(_)));
}

#[test]
fn game_with_single_non_bomb_tile_that_is_revealed_should_be_won() {
    let state = Game::new_random(1, 1, 0).unwrap();
    let won_game = to_in_progress(state).reveal_at(0, 0).unwrap();
    assert!(matches!(won_game, GameState::Won(_)));
}

#[test]
fn single_tile_board_should_have_zero_bomb_neighbors() {
    let state = Game::new_random(1, 1, 0).unwrap();
    assert_eq!(to_in_progress(state).board[0].bomb_neighbors, 0);
}

#[test]
fn tile_with_one_bomb_neighbour_should_have_correct_neighbour_count() {
    let state = Game::new(2, 1, &hash_set(&[1])).unwrap();
    let game = to_in_progress(state);
    assert_eq!(game.board[0].bomb_neighbors, 1);
}

#[test]
fn three_by_three_board_all_bombs_center_tile_should_have_eight_neighbors() {
    let state = Game::new(3, 3, &hash_set(&[0, 1, 2, 3, 5, 6, 7, 8])).unwrap();
    let game = to_in_progress(state);
    assert_eq!(game.board[4].bomb_neighbors, 8);
}

#[test]
fn one_by_one_without_mines_starts_in_progress() {
    let state = Game::new(1, 1, &hash_set(&[])).unwrap();
    let game = to_in_progress(state);
    assert_eq!(game.width, 1);
    assert_eq!(game.height, 1);
    assert_eq!(
        game.board,
        vec![Tile { is_bomb: false, is_revealed: false, bomb_neighbors: 0 }]
    );
}

#[test]
fn one_by_one_mine_revealed_is_lost() {
    let game = Game {
        width: 1,
        height: 1,
        board: vec![Tile { is_bomb: true, is_revealed: false, bomb_neighbors: 0 }],
    };
    let state = game.reveal_at(0, 0).unwrap();
    assert_eq!(
        state,
        GameState::Lost(FinishedGame {
            board: vec![Tile { is_bomb: true, is_revealed: true, bomb_neighbors: 0 }],
        })
    );
}

#[test]
fn board_of_mines_alone_is_won_at_once() {
    let state = Game::new(1, 1, &hash_set(&[0])).unwrap();
    assert_eq!(
        state,
        GameState::Won(FinishedGame {
            board: vec![Tile { is_bomb: true, is_revealed: false, bomb_neighbors: 0 }],
        })
    );
}

#[test]
fn two_by_one_board_of_mines_counts_one_each() {
    let state = Game::new(2, 1, &hash_set(&[0, 1])).unwrap();
    assert!(matches!(state, GameState::Won(_)));
    let board = to_finished_game(state).board;
    assert_eq!(board.len(), 2);
    assert_eq!(board[0].bomb_neighbors, 1);
    assert_eq!(board[1].bomb_neighbors, 1);
    assert!(board[0].is_bomb && board[1].is_bomb);
    assert!(!board[0].is_revealed && !board[1].is_revealed);
}

#[test]
fn empty_grid_without_mines_is_won_at_once() {
    assert_eq!(
        Game::new(0, 0, &hash_set(&[])).unwrap(),
        GameState::Won(FinishedGame { board: vec![] })
    );
    assert_eq!(
        Game::new(0, 7, &hash_set(&[])).unwrap(),
        GameState::Won(FinishedGame { board: vec![] })
    );
    assert_eq!(
        Game::new_random(3, 0, 0).unwrap(),
        GameState::Won(FinishedGame { board: vec![] })
    );
}

#[test]
fn mine_off_the_grid_is_invalid_configuration() {
    assert_eq!(Game::new(2, 2, &hash_set(&[4])), Err(GameError::InvalidConfiguration));
    assert_eq!(Game::new(2, 2, &hash_set(&[0, 1, 99])), Err(GameError::InvalidConfiguration));
    assert_eq!(Game::new(0, 0, &hash_set(&[0])), Err(GameError::InvalidConfiguration));
    assert_eq!(Game::new(5, 0, &hash_set(&[3])), Err(GameError::InvalidConfiguration));
    assert!(Game::new(2, 2, &hash_set(&[3])).is_ok());
    assert_eq!(
        Game::init_game_board(2, 2, &hash_set(&[4])),
        Err(GameError::InvalidConfiguration)
    );
}

#[test]
fn more_mines_than_tiles_is_invalid_configuration() {
    assert_eq!(Game::new_random(2, 2, 5), Err(GameError::InvalidConfiguration));
    assert_eq!(Game::new_random(0, 0, 1), Err(GameError::InvalidConfiguration));
    assert_eq!(Game::new_random(1, 1, usize::MAX), Err(GameError::InvalidConfiguration));
    assert!(Game::new_random(2, 2, 4).is_ok());
}

fn board_of(state: GameState) -> Vec<Tile> {
    match state {
        GameState::InProgress(g) => g.board,
        GameState::Won(f) => f.board,
        GameState::Lost(f) => f.board,
    }
}

#[test]
fn random_game_places_the_mines_asked_for() {
    for count in 0..=12 {
        let board = board_of(Game::new_random(4, 3, count).unwrap());
        assert_eq!(board.len(), 12);
        assert_eq!(board.iter().filter(|t| t.is_bomb).count(), count);
        assert!(board.iter().all(|t| !t.is_revealed));
    }
}

#[test]
fn random_game_full_of_mines_is_won_at_once() {
    let state = Game::new_random(3, 3, 9).unwrap();
    assert!(matches!(state, GameState::Won(_)));
    let board = to_finished_game(state).board;
    assert!(board.iter().all(|t| t.is_bomb && !t.is_revealed));
    assert_eq!(board[4].bomb_neighbors, 8);
    assert_eq!(board[0].bomb_neighbors, 3);
    assert_eq!(board[1].bomb_neighbors, 5);
}

fn touches(width: usize, a: usize, b: usize) -> bool {
    let (ax, ay) = ((a % width) as i64, (a / width) as i64);
    let (bx, by) = ((b % width) as i64, (b / width) as i64);
    a != b && (ax - bx).abs() <= 1 && (ay - by).abs() <= 1
}

#[test]
fn counts_match_a_direct_count_of_adjacent_mines() {
    let (width, height) = (5usize, 4usize);
    let mines = [0usize, 4, 6, 7, 12, 13, 19];
    let board = Game::init_game_board(width, height, &hash_set(&mines)).unwrap();
    assert_eq!(board.len(), width * height);
    for i in 0..width * height {
        let expected = mines.iter().filter(|m| touches(width, i, **m)).count();
        assert_eq!(board[i].bomb_neighbors as usize, expected, "tile {}", i);
        assert_eq!(board[i].is_bomb, mines.contains(&i));
        assert!(!board[i].is_revealed);
    }
    let counts: Vec<u8> = board.iter().map(|t| t.bomb_neighbors).collect();
    assert_eq!(
        counts,
        vec![1, 3, 2, 2, 0, 2, 3, 3, 4, 2, 1, 3, 3, 3, 2, 0, 1, 2, 3, 1]
    );
}

#[test]
fn counts_do_not_wrap_around_the_ends_of_rows() {
    let board = Game::init_game_board(3, 3, &hash_set(&[2])).unwrap();
    assert_eq!(board[3].bomb_neighbors, 0);
    assert_eq!(board[1].bomb_neighbors, 1);
    assert_eq!(board[4].bomb_neighbors, 1);
    assert_eq!(board[5].bomb_neighbors, 1);
    let board = Game::init_game_board(3, 3, &hash_set(&[3])).unwrap();
    assert_eq!(board[2].bomb_neighbors, 0);
    assert_eq!(board[5].bomb_neighbors, 0);
    assert_eq!(board[0].bomb_neighbors, 1);
}

#[test]
fn calculate_state_follows_the_board() {
    let hidden_safe = Tile { is_bomb: false, is_revealed: false, bomb_neighbors: 1 };
    let shown_safe = Tile { is_bomb: false, is_revealed: true, bomb_neighbors: 1 };
    let hidden_mine = Tile { is_bomb: true, is_revealed: false, bomb_neighbors: 0 };
    let shown_mine = Tile { is_bomb: true, is_revealed: true, bomb_neighbors: 0 };

    let game = Game { width: 2, height: 1, board: vec![hidden_safe, hidden_mine] };
    assert_eq!(game.clone().calculate_state(), GameState::InProgress(game));

    let game = Game { width: 2, height: 1, board: vec![shown_safe, hidden_mine] };
    assert_eq!(
        game.calculate_state(),
        GameState::Won(FinishedGame { board: vec![shown_safe, hidden_mine] })
    );

    let game = Game { width: 2, height: 1, board: vec![hidden_safe, shown_mine] };
    assert_eq!(
        game.calculate_state(),
        GameState::Lost(FinishedGame { board: vec![hidden_safe, shown_mine] })
    );

    let game = Game { width: 2, height: 1, board: vec![shown_safe, shown_mine] };
    assert_eq!(
        game.calculate_state(),
        GameState::Lost(FinishedGame { board: vec![shown_safe, shown_mine] })
    );
}

#[test]
fn uncover_keeps_mine_and_count() {
    let tile = Tile { is_bomb: true, is_revealed: false, bomb_neighbors: 3 };
    assert_eq!(tile.uncover(), Tile { is_bomb: true, is_revealed: true, bomb_neighbors: 3 });
    assert_eq!(tile.uncover().uncover(), tile.uncover());
}

#[test]
fn all_indices_lists_every_index_in_rising_order() {
    assert_eq!(all_indices(0), Vec::<usize>::new());
    assert_eq!(all_indices(1), vec![0]);
    assert_eq!(all_indices(5), vec![0, 1, 2, 3, 4]);
    let many = all_indices(1000);
    assert_eq!(many.len(), 1000);
    assert!(many.iter().enumerate().all(|(k, v)| k == *v));
}

#[test]
fn random_game_with_as_many_mines_as_tiles_is_full() {
    for (width, height) in [(1usize, 1usize), (2, 3), (7, 1), (1, 7), (20, 20)] {
        let state = Game::new_random(width, height, width * height).unwrap();
        match state {
            GameState::Won(done) => {
                assert_eq!(done.board.len(), width * height);
                assert!(done.board.iter().all(|t| t.is_bomb && !t.is_revealed));
            }
            _ => panic!("a board of mines alone is won at once"),
        }
    }
}
