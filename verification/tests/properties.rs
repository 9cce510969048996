use game2048::Direction;
use game2048::Game;
use game2048::NoFreeCellError;

/// A full board with no two equal adjacent tiles: 2 and 4 alternating
/// like a checkerboard.
fn checkerboard() -> Game {
    let mut game = Game::new();
    for row in 0..4 {
        for col in 0..4 {
            let v = if (row + col) % 2 == 0 { 2 } else { 4 };
            game.set_cell(4 * row + col, v);
        }
    }
    game
}

fn board_sum(game: &Game) -> u64 {
    game.copy_grid().iter().map(|&v| v as u64).sum()
}

#[test]
fn new_board_is_empty_and_not_over() {
    let game = Game::new();
    assert_eq!(game.copy_grid(), [0u32; 16]);
    assert_eq!(game.score(), 0);
    assert_eq!(game.free_cells().len(), 16);
    assert!(!game.is_gameover());
    // no tile is on the board, so nothing can move anywhere
    assert!(!game.partial_move(Direction::Up));
    assert!(!game.partial_move(Direction::Down));
    assert!(!game.partial_move(Direction::Left));
    assert!(!game.partial_move(Direction::Right));
}

#[test]
fn restart_resets_everything() {
    let mut game = Game::new();
    game.set_cell(0, 2);
    game.set_cell(1, 2);
    game.action(Direction::Left);
    assert!(game.score() > 0);
    game.restart();
    assert_eq!(game.copy_grid(), [0u32; 16]);
    assert_eq!(game.score(), 0);
    assert_eq!(game.free_cells().len(), 16);
}

#[test]
fn slide_twice_gives_the_same_board_as_once() {
    let mut game = Game::new();
    game.set_cell(1, 2);
    game.set_cell(3, 4);
    game.set_cell(9, 8);
    game.set_cell(11, 8);
    game.set_cell(14, 2);
    game.move_zero(Direction::Left);
    let once = game.copy_grid();
    game.move_zero(Direction::Left);
    assert_eq!(game.copy_grid(), once);
    game.move_zero(Direction::Down);
    let down_once = game.copy_grid();
    game.move_zero(Direction::Down);
    assert_eq!(game.copy_grid(), down_once);
}

#[test]
fn merge_conserves_the_sum_and_scores_each_merge() {
    let mut game = Game::new();
    game.set_cell(0, 2);
    game.set_cell(1, 2);
    game.set_cell(2, 4);
    game.set_cell(3, 4);
    let before = board_sum(&game);
    game.compare(Direction::Left);
    assert_eq!(board_sum(&game), before);
    // 2+2 scored 4 and 4+4 scored 8
    assert_eq!(game.score(), 12);
    assert_eq!(game.copy_grid()[0], 4);
    assert_eq!(game.copy_grid()[2], 8);
}

#[test]
fn whole_move_conserves_the_sum() {
    let mut game = Game::new();
    for i in 0..16 {
        game.set_cell(i, 2);
    }
    let before = board_sum(&game);
    game.action(Direction::Down);
    assert_eq!(board_sum(&game), before);
    // every column merged twice, each merge worth 4
    assert_eq!(game.score(), 32);
}

#[test]
fn merged_tile_is_not_merged_again() {
    // [2, 2, 4, 0] slides and merges to [4, 4, 0, 0], never to [8, ...]
    let mut game = Game::new();
    game.set_cell(0, 2);
    game.set_cell(1, 2);
    game.set_cell(2, 4);
    game.action(Direction::Left);
    let grid = game.copy_grid();
    assert_eq!(grid[0], 4);
    assert_eq!(grid[1], 4);
    assert_eq!(grid[2], 0);
    assert_eq!(grid[3], 0);

    // [2, 2, 2, 2] becomes [4, 4, 0, 0], never [8, 0, 0, 0]
    let mut game = Game::new();
    for col in 0..4 {
        game.set_cell(col, 2);
    }
    game.action(Direction::Left);
    let grid = game.copy_grid();
    assert_eq!(grid[0], 4);
    assert_eq!(grid[1], 4);
    assert_eq!(grid[2], 0);
    assert_eq!(grid[3], 0);
}

#[test]
fn gameover_only_when_full_without_equal_neighbours() {
    // full, alternating: over
    let game = checkerboard();
    assert!(game.is_gameover());

    // an equal adjacent pair rescues the game
    let mut game = checkerboard();
    game.set_cell(5, 4);
    // row 1 is now [4, 4, 4, 2]
    assert!(!game.is_gameover());

    // a free cell rescues the game
    let mut game = checkerboard();
    game.set_cell(10, 0);
    assert!(!game.is_gameover());
}

#[test]
fn terminal_board_absorbs_every_move() {
    let mut game = checkerboard();
    let before = game.copy_grid();
    for d in [
        Direction::Up,
        Direction::Down,
        Direction::Left,
        Direction::Right,
    ] {
        assert!(!game.partial_move(d));
        let changed = game.action(d);
        assert!(!changed);
        assert_eq!(game.copy_grid(), before);
        assert_eq!(game.score(), 0);
    }
}

#[test]
fn action_reports_whether_the_board_changed() {
    let mut game = Game::new();
    game.set_cell(0, 2);
    // already packed against the left edge, nothing merges
    assert!(!game.action(Direction::Left));
    // the tile travels to the right edge
    assert!(game.action(Direction::Right));
    assert_eq!(game.copy_grid()[3], 2);
}

#[test]
fn spawn_fails_only_on_a_full_board() {
    let mut game = checkerboard();
    let before = game.copy_grid();
    let r = game.random();
    assert!(matches!(r, Err(NoFreeCellError)));
    assert_eq!(game.copy_grid(), before);
    assert_eq!(game.score(), 0);
}

#[test]
fn spawn_fills_a_free_cell_with_2_or_4() {
    let mut game = checkerboard();
    game.set_cell(9, 0);
    let r = game.random();
    assert!(r.is_ok());
    let v = game.copy_grid()[9];
    assert!(v == 2 || v == 4);
    assert!(game.free_cells().is_empty());
    assert_eq!(game.score(), 0);
}

#[test]
fn init_first_elements_places_one_to_three_tiles() {
    for _ in 0..50 {
        let game = Game::init_first_elements();
        let grid = game.copy_grid();
        let placed = grid.iter().filter(|&&v| v != 0).count();
        assert!(1 <= placed && placed <= 3);
        for &v in grid.iter() {
            assert!(v == 0 || v == 2 || v == 4);
        }
        let mut free = game.free_cells();
        free.sort();
        let expected: Vec<u32> = (0..16u32).filter(|&i| grid[i as usize] == 0).collect();
        assert_eq!(free, expected);
        assert_eq!(game.score(), 0);
    }
}

#[test]
fn direction_lists_the_lanes_edge_first() {
    let game = Game::new();
    let left = game.direction(Direction::Left);
    assert_eq!(left[0], vec![0, 1, 2, 3]);
    assert_eq!(left[3], vec![12, 13, 14, 15]);
    let right = game.direction(Direction::Right);
    assert_eq!(right[0], vec![3, 2, 1, 0]);
    let up = game.direction(Direction::Up);
    assert_eq!(up[1], vec![1, 5, 9, 13]);
    let down = game.direction(Direction::Down);
    assert_eq!(down[0], vec![12, 8, 4, 0]);
}

#[test]
fn probe_respects_the_borders() {
    // a single tile against the left wall cannot move further left
    let mut game = Game::new();
    game.set_cell(4, 2);
    assert!(!game.partial_move(Direction::Left));
    assert!(game.partial_move(Direction::Right));
    assert!(game.partial_move(Direction::Up));
    assert!(game.partial_move(Direction::Down));

    // an equal horizontal pair allows a horizontal move even on a full
    // board, and no vertical one
    let mut game = checkerboard();
    game.set_cell(0, 8);
    game.set_cell(1, 8);
    // row 0 is now [8, 8, 2, 4]
    assert!(game.partial_move(Direction::Left));
    assert!(game.partial_move(Direction::Right));
    assert!(!game.partial_move(Direction::Up));
    assert!(!game.partial_move(Direction::Down));
}
