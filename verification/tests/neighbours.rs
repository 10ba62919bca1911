use minesweeper::Game;

#[test]
fn one_by_one_should_have_no_neighbours() {
    let ix = Game::neighbour_indices(0, 1, 1);
    assert!(ix.len() == 0)
}

#[test]
fn one_by_two_should_have_one_neighbour_above() {
    let ix = Game::neighbour_indices(1, 1, 2);
    assert_eq!(ix.len(), 1);
    assert!(ix[0] == 0)
}

#[test]
fn two_by_two_should_have_three_neighbours() {
    let ix = Game::neighbour_indices(3, 2, 2);
    assert_eq!(ix.len(), 3);
    assert!(ix == vec![1, 0, 2])
}

#[test]
fn inner_tile_has_eight_neighbours_in_order() {
    assert_eq!(Game::neighbour_indices(4, 3, 3), vec![1, 0, 2, 3, 5, 7, 6, 8]);
    assert_eq!(Game::neighbour_indices(6, 5, 3), vec![1, 0, 2, 5, 7, 11, 10, 12]);
}

#[test]
fn corners_have_three_neighbours() {
    assert_eq!(Game::neighbour_indices(0, 3, 3), vec![1, 3, 4]);
    assert_eq!(Game::neighbour_indices(2, 3, 3), vec![1, 5, 4]);
    assert_eq!(Game::neighbour_indices(6, 3, 3), vec![3, 4, 7]);
    assert_eq!(Game::neighbour_indices(8, 3, 3), vec![5, 4, 7]);
}

#[test]
fn edges_have_five_neighbours() {
    assert_eq!(Game::neighbour_indices(1, 3, 3), vec![0, 2, 4, 3, 5]);
    assert_eq!(Game::neighbour_indices(3, 3, 3), vec![0, 1, 4, 6, 7]);
    assert_eq!(Game::neighbour_indices(5, 3, 3), vec![2, 1, 4, 8, 7]);
    assert_eq!(Game::neighbour_indices(7, 3, 3), vec![4, 3, 5, 6, 8]);
}

#[test]
fn single_row_and_single_column_have_two_neighbours_inside() {
    assert_eq!(Game::neighbour_indices(2, 5, 1), vec![1, 3]);
    assert_eq!(Game::neighbour_indices(0, 5, 1), vec![1]);
    assert_eq!(Game::neighbour_indices(4, 5, 1), vec![3]);
    assert_eq!(Game::neighbour_indices(2, 1, 5), vec![1, 3]);
    assert_eq!(Game::neighbour_indices(0, 1, 5), vec![1]);
    assert_eq!(Game::neighbour_indices(4, 1, 5), vec![3]);
}

#[test]
fn neighbours_never_cross_the_end_of_a_row() {
    let (width, height) = (4usize, 3usize);
    for i in 0..width * height {
        let found = Game::neighbour_indices(i, width, height);
        for n in &found {
            assert!(*n < width * height);
            assert!(*n != i);
            let dx = (*n % width) as i64 - (i % width) as i64;
            let dy = (*n / width) as i64 - (i / width) as i64;
            assert!(dx.abs() <= 1 && dy.abs() <= 1, "{} and {}", i, n);
        }
        let mut sorted = found.clone();
        sorted.sort();
        sorted.dedup();
        assert_eq!(sorted.len(), found.len());
        let expected = (0..width * height)
            .filter(|n| {
                let dx = (*n % width) as i64 - (i % width) as i64;
                let dy = (*n / width) as i64 - (i / width) as i64;
                *n != i && dx.abs() <= 1 && dy.abs() <= 1
            })
            .count();
        assert_eq!(found.len(), expected);
    }
}
