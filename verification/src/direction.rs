use vstd::prelude::*;

verus! {

/// The four move directions of the puzzle.
#[derive(Clone, Copy, Debug, PartialEq, Eq, Structural)]
pub enum Direction {
    Up,
    Down,
    Left,
    Right,
}

/// Board index of the cell at position `j` of lane `k` under direction `d`.
///
/// Each direction splits the 16 cells into four disjoint lanes of four
/// cells: the rows for horizontal moves, the columns for vertical moves.
/// Position 0 of a lane is the cell furthest in the direction of travel,
/// so tiles slide toward position 0.
pub open spec fn lane_index(d: Direction, k: int, j: int) -> int {
    match d {
        Direction::Left => 4 * k + j,
        Direction::Right => 4 * k + 3 - j,
        Direction::Up => 4 * j + k,
        Direction::Down => 4 * (3 - j) + k,
    }
}

/// Lane that board index `i` belongs to under direction `d`.
pub open spec fn lane_of(d: Direction, i: int) -> int {
    match d {
        Direction::Left => i / 4,
        Direction::Right => i / 4,
        Direction::Up => i % 4,
        Direction::Down => i % 4,
    }
}

/// Position of board index `i` within its lane under direction `d`.
pub open spec fn pos_of(d: Direction, i: int) -> int {
    match d {
        Direction::Left => i % 4,
        Direction::Right => 3 - i % 4,
        Direction::Up => i / 4,
        Direction::Down => 3 - i / 4,
    }
}

/// `lane_of` and `pos_of` invert `lane_index` on the board.
pub proof fn lemma_lane_inverse(d: Direction, i: int)
    requires
        0 <= i < 16,
    ensures
        0 <= lane_of(d, i) < 4,
        0 <= pos_of(d, i) < 4,
        lane_index(d, lane_of(d, i), pos_of(d, i)) == i,
{
}

/// `lane_index` lands inside the board, in the lane and at the position
/// it was asked for.
pub proof fn lemma_index_inverse(d: Direction, k: int, j: int)
    requires
        0 <= k < 4,
        0 <= j < 4,
    ensures
        0 <= lane_index(d, k, j) < 16,
        lane_of(d, lane_index(d, k, j)) == k,
        pos_of(d, lane_index(d, k, j)) == j,
{
}

/// Executable counterpart of `lane_index`.
pub fn lane_cell(d: Direction, k: usize, j: usize) -> (i: usize)
    requires
        k < 4,
        j < 4,
    ensures
        i < 16,
        i == lane_index(d, k as int, j as int),
{
    match d {
        Direction::Left => 4 * k + j,
        Direction::Right => 4 * k + 3 - j,
        Direction::Up => 4 * j + k,
        Direction::Down => 4 * (3 - j) + k,
    }
}

/// Whether cell `i` has a neighbour one step onward in direction `d`,
/// i.e. `i` is not on the border that the move presses against.
pub open spec fn has_neighbor(d: Direction, i: int) -> bool {
    match d {
        Direction::Up => i >= 4,
        Direction::Down => i < 12,
        Direction::Left => i % 4 != 0,
        Direction::Right => i % 4 != 3,
    }
}

/// Index of the neighbour of cell `i` one step onward in direction `d`.
pub open spec fn neighbor(d: Direction, i: int) -> int {
    match d {
        Direction::Up => i - 4,
        Direction::Down => i + 4,
        Direction::Left => i - 1,
        Direction::Right => i + 1,
    }
}

} // verus!
