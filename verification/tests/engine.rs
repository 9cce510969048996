use game2048::Direction;
use game2048::Game;

fn sorted_free(game: &Game) -> Vec<u32> {
    let mut free = game.free_cells();
    free.sort();
    free
}

#[test]
fn simple_addition_up() {
    // Grid input
    //
    // [2, 2, 2, 2]
    // [0, 0, 0, 0]
    // [0, 0, 0, 0]
    // [2, 2, 2, 2]
    //
    // Expected output
    //
    // [4, 4, 4, 4]
    // [0, 0, 0, 0]
    // [0, 0, 0, 0]
    // [0, 0, 0, 0]

    let mut game = Game::new();
    for i in 0..4 {
        game.set_cell(i, 2);
        game.set_cell(i + 12, 2);
    }
    game.action(Direction::Up);
    let grid = game.copy_grid();
    for i in 0..4 {
        assert_eq!(grid[i], 4);
    }
    for i in 4..16 {
        assert_eq!(grid[i], 0);
    }
    assert_eq!(sorted_free(&game), (4..16).collect::<Vec<u32>>());
}

#[test]
fn simple_addition_down() {
    // Grid input
    //
    // [2, 2, 2, 2]
    // [0, 0, 0, 0]
    // [0, 0, 0, 0]
    // [2, 2, 2, 2]
    //
    // Expected output
    //
    // [0, 0, 0, 0]
    // [0, 0, 0, 0]
    // [0, 0, 0, 0]
    // [4, 4, 4, 4]

    let mut game = Game::new();
    for i in 0..4 {
        game.set_cell(i, 2);
        game.set_cell(i + 12, 2);
    }
    game.action(Direction::Down);
    let grid = game.copy_grid();
    for i in 0..12 {
        assert_eq!(grid[i], 0);
    }
    for i in 12..16 {
        assert_eq!(grid[i], 4);
    }
    assert_eq!(sorted_free(&game), (0..12).collect::<Vec<u32>>());
}

#[test]
fn simple_addition_left() {
    // Grid input
    //
    // [2, 0, 0, 2]
    // [2, 0, 0, 2]
    // [2, 0, 0, 2]
    // [2, 0, 0, 2]
    //
    // Expected output
    //
    // [4, 0, 0, 0]
    // [4, 0, 0, 0]
    // [4, 0, 0, 0]
    // [4, 0, 0, 0]

    let mut game = Game::new();
    for i in 0..4 {
        game.set_cell(4 * i, 2);
        game.set_cell(4 * i + 3, 2);
    }
    game.action(Direction::Left);
    let grid = game.copy_grid();
    for i in 0..4 {
        assert_eq!(grid[4 * i], 4);
    }
    for i in 0..4 {
        for j in 1..4 {
            assert_eq!(grid[4 * i + j], 0);
        }
    }
    assert_eq!(
        sorted_free(&game),
        (0..16).filter(|i| i % 4 != 0).collect::<Vec<u32>>()
    );
}

#[test]
fn simple_addition_right() {
    // Grid input
    //
    // [2, 0, 0, 2]
    // [2, 0, 0, 2]
    // [2, 0, 0, 2]
    // [2, 0, 0, 2]
    //
    // Expected output
    //
    // [0, 0, 0, 4]
    // [0, 0, 0, 4]
    // [0, 0, 0, 4]
    // [0, 0, 0, 4]

    let mut game = Game::new();
    for i in 0..4 {
        game.set_cell(4 * i, 2);
        game.set_cell(4 * i + 3, 2);
    }
    game.action(Direction::Right);
    let grid = game.copy_grid();
    for i in 0..4 {
        assert_eq!(grid[4 * i + 3], 4);
    }
    for i in 0..4 {
        for j in 0..3 {
            assert_eq!(grid[4 * i + j], 0);
        }
    }
    assert_eq!(
        sorted_free(&game),
        (0..16).filter(|i| i % 4 != 3).collect::<Vec<u32>>()
    );
}

#[test]
fn simple_move() {
    // Move : Left
    //
    // Grid input
    //
    // [0, 0, 0, 0]
    // [0, 0, 0, 0]
    // [0, 0, 0, 4]
    // [0, 0, 4, 8]
    //
    // Expected output
    //
    // [0, 0, 0, 0]
    // [0, 0, 0, 0]
    // [4, 0, 0, 0]
    // [4, 8, 0, 0]

    let mut game = Game::new();
    game.set_cell(11, 4);
    game.set_cell(14, 4);
    game.set_cell(15, 8);
    game.action(Direction::Left);
    let grid = game.copy_grid();
    for i in 0..16 {
        if i == 8 || i == 12 {
            assert_eq!(grid[i], 4);
        } else if i == 13 {
            assert_eq!(grid[i], 8);
        } else {
            assert_eq!(grid[i], 0);
        }
    }

    let mut expected_zero = (0..16).collect::<Vec<u32>>();
    expected_zero.retain(|&i| i != 8 && i != 12 && i != 13);
    expected_zero.sort();
    assert_eq!(sorted_free(&game), expected_zero);
}

#[test]
fn partial_move() {
    // Move : Left
    //
    // Grid input
    // [0, 0, 0, 0]
    // [0, 0, 0, 8]
    // [0, 0, 0, 0]
    // [0, 0, 4, 2]

    let mut game = Game::new();
    game.set_cell(7, 8);
    game.set_cell(14, 4);
    game.set_cell(15, 2);
    assert!(game.partial_move(Direction::Left));
}

#[test]
fn complex_addition() {
    // Grid input
    //
    // [2, 2, 2, 2]
    // [2, 2, 2, 2]
    // [2, 2, 2, 2]
    // [2, 2, 2, 2]
    //
    // Expected output
    //
    // [0, 0, 0, 0]
    // [0, 0, 0, 0]
    // [4, 4, 4, 4]
    // [4, 4, 4, 4]

    let mut game = Game::new();
    for i in 0..16 {
        game.set_cell(i, 2);
    }
    game.action(Direction::Down);
    let grid = game.copy_grid();
    for i in 0..8 {
        assert_eq!(grid[i], 0);
    }
    for i in 8..16 {
        assert_eq!(grid[i], 4);
    }
    assert_eq!(sorted_free(&game), (0..8).collect::<Vec<u32>>());
}
