use vstd::prelude::*;

use crate::direction::{Direction, lane_index, lane_of, lemma_index_inverse, lemma_lane_inverse,
    neighbor, pos_of};
use crate::model::{apply_move, can_move, has_adjacent_equal, is_full, is_terminal, lane_seq,
    lemma_lane_sum_le_board, lemma_merge_board_sum, lemma_merge_lane_cells,
    lemma_nonzeros_all_nonzero, lemma_slide_board_lane, lemma_slide_board_sum,
    lemma_slide_lane_idempotent, merge_board, merge_lane, pair_at, probe_ok, seq_sum, slide_board,
    slide_lane};

verus! {

/// Compaction is idempotent: sliding the board twice in the same
/// direction gives the same board as sliding it once.
pub proof fn lemma_slide_idempotent(g: Seq<u32>, d: Direction)
    requires
        g.len() == 16,
    ensures
        slide_board(slide_board(g, d), d) == slide_board(g, d),
{
    let s1 = slide_board(g, d);
    assert forall|i: int| 0 <= i < 16 implies slide_board(s1, d)[i] == s1[i] by {
        lemma_lane_inverse(d, i);
        let k = lane_of(d, i);
        lemma_slide_board_lane(g, d, k);
        lemma_slide_lane_idempotent(lane_seq(g, d, k));
    }
    assert(slide_board(s1, d) =~= s1);
}

/// The merge pass conserves the total tile value: merging combines
/// tiles, it never creates or destroys value. The score grows by
/// exactly the doubled value of each merge, which `compare` states in
/// its own contract through `board_gain`.
pub proof fn lemma_merge_conserves_sum(g: Seq<u32>, d: Direction)
    requires
        g.len() == 16,
        seq_sum(g) <= u32::MAX,
    ensures
        seq_sum(merge_board(g, d)) == seq_sum(g),
{
    lemma_merge_board_sum(g, d);
}

/// Sliding moves tiles without touching their values, so it too
/// conserves the total tile value.
pub proof fn lemma_slide_conserves_sum(g: Seq<u32>, d: Direction)
    requires
        g.len() == 16,
    ensures
        seq_sum(slide_board(g, d)) == seq_sum(g),
{
    lemma_slide_board_sum(g, d);
}

/// No tile is merged twice within one pass: every cell of the merged
/// board holds its old value, was emptied into its merge partner, or was
/// doubled exactly once — never quadrupled. The sweeps of `apply_move`
/// around the pass only move tiles, so a tile born of a merge keeps its
/// value for the rest of the move.
pub proof fn lemma_no_double_merge(g: Seq<u32>, d: Direction)
    requires
        g.len() == 16,
        seq_sum(g) <= u32::MAX,
    ensures
        forall|i: int|
            0 <= i < 16 ==> {
                ||| #[trigger] merge_board(g, d)[i] == g[i]
                ||| merge_board(g, d)[i] == 0
                ||| (g[i] != 0 && merge_board(g, d)[i] == 2 * g[i])
            },
{
    assert forall|i: int|
        0 <= i < 16 implies {
        ||| #[trigger] merge_board(g, d)[i] == g[i]
        ||| merge_board(g, d)[i] == 0
        ||| (g[i] != 0 && merge_board(g, d)[i] == 2 * g[i])
    } by {
        lemma_lane_inverse(d, i);
        let k = lane_of(d, i);
        lemma_lane_sum_le_board(g, d, k);
        lemma_merge_lane_cells(lane_seq(g, d, k));
    }
}

/// A full board without adjacent equal tiles slides into itself: no
/// tile has anywhere to go.
pub proof fn lemma_slide_full_noop(g: Seq<u32>, d: Direction)
    requires
        g.len() == 16,
        is_full(g),
    ensures
        slide_board(g, d) == g,
{
    assert forall|i: int| 0 <= i < 16 implies slide_board(g, d)[i] == g[i] by {
        lemma_lane_inverse(d, i);
        let k = lane_of(d, i);
        let s = lane_seq(g, d, k);
        assert forall|j: int| 0 <= j < 4 implies #[trigger] s[j] != 0 by {
            lemma_index_inverse(d, k, j);
        }
        lemma_nonzeros_all_nonzero(s);
        assert(slide_lane(s) =~= s);
    }
    assert(slide_board(g, d) =~= g);
}

/// Two equal adjacent cells of a lane are two equal adjacent cells of
/// the board.
proof fn lemma_lane_pair_witness(g: Seq<u32>, d: Direction, k: int, j: int)
    requires
        g.len() == 16,
        0 <= k < 4,
        0 <= j < 3,
        lane_seq(g, d, k)[j] == lane_seq(g, d, k)[j + 1],
    ensures
        has_adjacent_equal(g),
{
    let ia = lane_index(d, k, j);
    let ib = lane_index(d, k, j + 1);
    lemma_index_inverse(d, k, j);
    lemma_index_inverse(d, k, j + 1);
    match d {
        Direction::Left => {
            assert(pair_at(g, ia));
        },
        Direction::Right => {
            assert(pair_at(g, ib));
        },
        Direction::Up => {
            assert(pair_at(g, ia));
        },
        Direction::Down => {
            assert(pair_at(g, ib));
        },
    }
}

/// A board without adjacent equal tiles merges into itself.
pub proof fn lemma_merge_noop(g: Seq<u32>, d: Direction)
    requires
        g.len() == 16,
        !has_adjacent_equal(g),
    ensures
        merge_board(g, d) == g,
{
    assert forall|i: int| 0 <= i < 16 implies merge_board(g, d)[i] == g[i] by {
        lemma_lane_inverse(d, i);
        let k = lane_of(d, i);
        let s = lane_seq(g, d, k);
        if s[0] != 0 && s[0] == s[1] {
            lemma_lane_pair_witness(g, d, k, 0);
        }
        if s[1] != 0 && s[1] == s[2] {
            lemma_lane_pair_witness(g, d, k, 1);
        }
        if s[2] != 0 && s[2] == s[3] {
            lemma_lane_pair_witness(g, d, k, 2);
        }
        assert(merge_lane(s) == s);
    }
    assert(merge_board(g, d) =~= g);
}

/// A terminal board absorbs every move: once the game is over,
/// `apply_move` leaves the board exactly as it was, in any direction.
pub proof fn lemma_terminal_move_is_noop(g: Seq<u32>, d: Direction)
    requires
        g.len() == 16,
        is_terminal(g),
    ensures
        apply_move(g, d) == g,
{
    lemma_slide_full_noop(g, d);
    lemma_merge_noop(g, d);
}

/// The terminal test agrees with the probe: a board is terminal exactly
/// when it is full and no direction admits a move. (A board with a free
/// cell can also admit no move — an empty board does — so fullness is
/// part of the statement, not a consequence.)
pub proof fn lemma_terminal_iff_no_move(g: Seq<u32>)
    requires
        g.len() == 16,
    ensures
        is_terminal(g) <==> (is_full(g) && forall|d: Direction| !can_move(g, d)),
{
    if is_terminal(g) {
        assert forall|d: Direction| !can_move(g, d) by {
            if can_move(g, d) {
                let i = choose|i: int| 0 <= i < 16 && probe_ok(g, d, i);
                let nb = neighbor(d, i);
                assert(0 <= nb < 16);
                assert(g[nb] != 0);
                assert(g[nb] == g[i]);
                match d {
                    Direction::Up => {
                        assert(pair_at(g, nb));
                    },
                    Direction::Down => {
                        assert(pair_at(g, i));
                    },
                    Direction::Left => {
                        assert(pair_at(g, nb));
                    },
                    Direction::Right => {
                        assert(pair_at(g, i));
                    },
                }
                assert(has_adjacent_equal(g));
                assert(false);
            }
        }
    }
    if is_full(g) && (forall|d: Direction| !can_move(g, d)) {
        if has_adjacent_equal(g) {
            let m = choose|m: int| 0 <= m < 16 && pair_at(g, m);
            if m % 4 != 3 && g[m] == g[m + 1] {
                assert(probe_ok(g, Direction::Right, m));
                assert(can_move(g, Direction::Right));
            } else {
                assert(probe_ok(g, Direction::Down, m));
                assert(can_move(g, Direction::Down));
            }
            assert(false);
        }
    }
}

} // verus!
