use vstd::prelude::*;

use crate::direction::{Direction, has_neighbor, lane_index, lane_of, neighbor, pos_of};

verus! {

/// A tile value is a power of two, at least 2; 0 marks an empty cell.
pub open spec fn is_tile(v: u32) -> bool
    decreases v,
{
    if v < 2 {
        false
    } else if v == 2 {
        true
    } else {
        v % 2 == 0 && is_tile(v / 2)
    }
}

/// A cell is either empty or holds a tile.
pub open spec fn valid_cell(v: u32) -> bool {
    v == 0 || is_tile(v)
}

/// The board with no tile on it.
pub open spec fn empty_board() -> Seq<u32> {
    Seq::new(16, |i: int| 0u32)
}

/// Sum of all cell values of a sequence.
pub open spec fn seq_sum(s: Seq<u32>) -> int
    decreases s.len(),
{
    if s.len() == 0 {
        0
    } else {
        seq_sum(s.drop_last()) + s.last()
    }
}

/// The nonzero values of a lane, in their original order.
pub open spec fn nonzeros(s: Seq<u32>) -> Seq<u32> {
    s.filter(|x: u32| x != 0)
}

/// A run of `n` empty cells.
pub open spec fn zero_seq(n: nat) -> Seq<u32> {
    Seq::new(n, |i: int| 0u32)
}

/// A compacted lane: the nonzero values slide to position 0 keeping their
/// order, and the freed cells at the tail are empty.
pub open spec fn slide_lane(s: Seq<u32>) -> Seq<u32> {
    nonzeros(s) + zero_seq((s.len() - nonzeros(s).len()) as nat)
}

/// One comparison of the merge pass, at lane positions `j` and `j + 1`:
/// two equal tiles combine, the one at `j` doubling and the one at
/// `j + 1` vanishing.
pub open spec fn merge_at(s: Seq<u32>, j: int) -> Seq<u32> {
    if s[j] != 0 && s[j] == s[j + 1] {
        s.update(j, (2 * s[j]) as u32).update(j + 1, 0u32)
    } else {
        s
    }
}

/// Score gained by the comparison at position `j`: the doubled value, or
/// nothing when no merge happens there.
pub open spec fn gain_at(s: Seq<u32>, j: int) -> int {
    if s[j] != 0 && s[j] == s[j + 1] {
        2 * s[j]
    } else {
        0
    }
}

/// The lane after the first `j` comparisons of the merge pass.
pub open spec fn merge_steps(s: Seq<u32>, j: int) -> Seq<u32> {
    if j <= 0 {
        s
    } else if j == 1 {
        merge_at(s, 0)
    } else if j == 2 {
        merge_at(merge_at(s, 0), 1)
    } else {
        merge_at(merge_at(merge_at(s, 0), 1), 2)
    }
}

/// Score gained by the first `j` comparisons of the merge pass.
pub open spec fn gain_steps(s: Seq<u32>, j: int) -> int {
    if j <= 0 {
        0
    } else if j == 1 {
        gain_at(s, 0)
    } else if j == 2 {
        gain_at(s, 0) + gain_at(merge_steps(s, 1), 1)
    } else {
        gain_at(s, 0) + gain_at(merge_steps(s, 1), 1) + gain_at(merge_steps(s, 2), 2)
    }
}

/// The merge pass over a whole lane: one left-to-right sweep of the three
/// adjacent pairs. A doubled tile leaves an empty cell behind it, so it is
/// never doubled again within the same pass.
pub open spec fn merge_lane(s: Seq<u32>) -> Seq<u32> {
    merge_steps(s, 3)
}

/// Score gained by the merge pass over a whole lane.
pub open spec fn lane_gain(s: Seq<u32>) -> int {
    gain_steps(s, 3)
}

/// The four cells of lane `k` of board `g` under direction `d`.
pub open spec fn lane_seq(g: Seq<u32>, d: Direction, k: int) -> Seq<u32> {
    Seq::new(4, |j: int| g[lane_index(d, k, j)])
}

/// The board after every lane under `d` has been compacted.
pub open spec fn slide_board(g: Seq<u32>, d: Direction) -> Seq<u32> {
    Seq::new(16, |i: int| slide_lane(lane_seq(g, d, lane_of(d, i)))[pos_of(d, i)])
}

/// The board after the merge pass has run over every lane under `d`.
pub open spec fn merge_board(g: Seq<u32>, d: Direction) -> Seq<u32> {
    Seq::new(16, |i: int| merge_lane(lane_seq(g, d, lane_of(d, i)))[pos_of(d, i)])
}

/// Total score gained by the merge pass under `d`.
pub open spec fn board_gain(g: Seq<u32>, d: Direction) -> int {
    lane_gain(lane_seq(g, d, 0)) + lane_gain(lane_seq(g, d, 1)) + lane_gain(lane_seq(g, d, 2))
        + lane_gain(lane_seq(g, d, 3))
}

/// The complete move in direction `d`: slide, merge once, slide again to
/// close the gaps the merges opened.
pub open spec fn apply_move(g: Seq<u32>, d: Direction) -> Seq<u32> {
    slide_board(merge_board(slide_board(g, d), d), d)
}

/// The occupied cell `i` could step in direction `d`: its neighbour one
/// step onward is empty or holds an equal tile.
pub open spec fn probe_ok(g: Seq<u32>, d: Direction, i: int) -> bool {
    g[i] != 0 && has_neighbor(d, i) && (g[neighbor(d, i)] == 0 || g[neighbor(d, i)] == g[i])
}

/// A move in direction `d` is possible: some occupied cell has a
/// neighbour one step onward that is empty or holds an equal tile.
pub open spec fn can_move(g: Seq<u32>, d: Direction) -> bool {
    exists|i: int| 0 <= i < 16 && probe_ok(g, d, i)
}

/// Cell `i` makes an equal pair with the cell to its right or with the
/// cell below it.
pub open spec fn pair_at(g: Seq<u32>, i: int) -> bool {
    (i % 4 != 3 && g[i] == g[i + 1]) || (i < 12 && g[i] == g[i + 4])
}

/// Two equal cells stand next to each other in a row or in a column.
pub open spec fn has_adjacent_equal(g: Seq<u32>) -> bool {
    exists|i: int| 0 <= i < 16 && pair_at(g, i)
}

/// Every cell is occupied.
pub open spec fn is_full(g: Seq<u32>) -> bool {
    forall|i: int| 0 <= i < 16 ==> g[i] != 0
}

/// A terminal position: no empty cell and no adjacent equal pair, so no
/// move can change the board.
pub open spec fn is_terminal(g: Seq<u32>) -> bool {
    is_full(g) && !has_adjacent_equal(g)
}

/// The board with the lanes before `k` under `d` already compacted and
/// the remaining lanes still as in `g`.
pub open spec fn slide_upto(g: Seq<u32>, d: Direction, k: int) -> Seq<u32> {
    Seq::new(16, |i: int| if lane_of(d, i) < k { slide_board(g, d)[i] } else { g[i] })
}

/// The board with the merge pass already run over the lanes before `k`
/// under `d` and the remaining lanes still as in `g`.
pub open spec fn merge_upto(g: Seq<u32>, d: Direction, k: int) -> Seq<u32> {
    Seq::new(16, |i: int| if lane_of(d, i) < k { merge_board(g, d)[i] } else { g[i] })
}

/// Score gained by the merge pass over the lanes before `k` under `d`.
pub open spec fn gain_upto(g: Seq<u32>, d: Direction, k: int) -> int {
    if k <= 0 {
        0
    } else if k == 1 {
        lane_gain(lane_seq(g, d, 0))
    } else if k == 2 {
        lane_gain(lane_seq(g, d, 0)) + lane_gain(lane_seq(g, d, 1))
    } else if k == 3 {
        lane_gain(lane_seq(g, d, 0)) + lane_gain(lane_seq(g, d, 1)) + lane_gain(lane_seq(g, d, 2))
    } else {
        board_gain(g, d)
    }
}

/// A list of distinct indices below 16 holds at most 16 entries.
pub proof fn lemma_distinct_indices_le_16(z: Seq<u32>)
    requires
        z.no_duplicates(),
        forall|t: int| 0 <= t < z.len() ==> z[t] < 16,
    ensures
        z.len() <= 16,
{
    let zi = z.map_values(|x: u32| x as int);
    assert(zi.no_duplicates()) by {
        assert forall|i: int, j: int|
            0 <= i < zi.len() && 0 <= j < zi.len() && i != j implies zi[i] != zi[j] by {
            assert(z[i] != z[j]);
        }
    }
    zi.unique_seq_to_set();
    assert(zi.to_set().subset_of(vstd::set_lib::set_int_range(0, 16))) by {
        assert forall|x: int| zi.to_set().contains(x) implies vstd::set_lib::set_int_range(
            0,
            16,
        ).contains(x) by {
            let t = choose|t: int| 0 <= t < zi.len() && zi[t] == x;
            assert(z[t] < 16);
        }
    }
    vstd::set_lib::lemma_int_range(0, 16);
    vstd::set_lib::lemma_len_subset(zi.to_set(), vstd::set_lib::set_int_range(0, 16));
}

/// A sequence of cells sums to a non-negative value.
pub proof fn lemma_sum_nonneg(s: Seq<u32>)
    ensures
        0 <= seq_sum(s),
    decreases s.len(),
{
    if s.len() != 0 {
        lemma_sum_nonneg(s.drop_last());
    }
}

/// Updating one cell shifts the sum by the difference of the values.
pub proof fn lemma_sum_update(s: Seq<u32>, i: int, v: u32)
    requires
        0 <= i < s.len(),
    ensures
        seq_sum(s.update(i, v)) == seq_sum(s) - s[i] + v,
    decreases s.len(),
{
    let t = s.update(i, v);
    if i == s.len() - 1 {
        assert(t.drop_last() =~= s.drop_last());
    } else {
        assert(t.drop_last() =~= s.drop_last().update(i, v));
        lemma_sum_update(s.drop_last(), i, v);
    }
}

/// Each cell is at most the whole sum.
pub proof fn lemma_cell_le_sum(s: Seq<u32>, i: int)
    requires
        0 <= i < s.len(),
    ensures
        s[i] <= seq_sum(s),
    decreases s.len(),
{
    lemma_sum_nonneg(s.drop_last());
    if i < s.len() - 1 {
        lemma_cell_le_sum(s.drop_last(), i);
    }
}

/// Two distinct cells together are at most the whole sum.
pub proof fn lemma_two_cells_le_sum(s: Seq<u32>, i: int, j: int)
    requires
        0 <= i < s.len(),
        0 <= j < s.len(),
        i != j,
    ensures
        s[i] + s[j] <= seq_sum(s),
    decreases s.len(),
{
    if i == s.len() - 1 {
        lemma_cell_le_sum(s.drop_last(), j);
    } else if j == s.len() - 1 {
        lemma_cell_le_sum(s.drop_last(), i);
    } else {
        lemma_two_cells_le_sum(s.drop_last(), i, j);
    }
}

/// The sum of a concatenation is the sum of the parts.
pub proof fn lemma_sum_concat(a: Seq<u32>, b: Seq<u32>)
    ensures
        seq_sum(a + b) == seq_sum(a) + seq_sum(b),
    decreases b.len(),
{
    if b.len() == 0 {
        assert(a + b =~= a);
    } else {
        assert((a + b).drop_last() =~= a + b.drop_last());
        lemma_sum_concat(a, b.drop_last());
    }
}

/// A run of empty cells sums to nothing.
pub proof fn lemma_zero_seq_sum(n: nat)
    ensures
        seq_sum(zero_seq(n)) == 0,
    decreases n,
{
    if n != 0 {
        assert(zero_seq(n).drop_last() =~= zero_seq((n - 1) as nat));
        lemma_zero_seq_sum((n - 1) as nat);
    }
}

/// Dropping the zeros cannot lengthen a lane.
pub proof fn lemma_nonzeros_len(s: Seq<u32>)
    ensures
        nonzeros(s).len() <= s.len(),
    decreases s.len(),
{
    reveal_with_fuel(Seq::<u32>::filter, 2);
    if s.len() != 0 {
        lemma_nonzeros_len(s.drop_last());
    }
}

/// Dropping the zeros does not change the sum.
pub proof fn lemma_nonzeros_sum(s: Seq<u32>)
    ensures
        seq_sum(nonzeros(s)) == seq_sum(s),
    decreases s.len(),
{
    reveal_with_fuel(Seq::<u32>::filter, 2);
    if s.len() != 0 {
        lemma_nonzeros_sum(s.drop_last());
        if s.last() != 0 {
            assert(nonzeros(s) == nonzeros(s.drop_last()).push(s.last()));
            assert(nonzeros(s).drop_last() =~= nonzeros(s.drop_last()));
        }
    }
}

/// The surviving values are nonzero and all come from the lane.
pub proof fn lemma_nonzeros_elems(s: Seq<u32>)
    ensures
        forall|j: int|
            0 <= j < nonzeros(s).len() ==> #[trigger] nonzeros(s)[j] != 0 && s.contains(
                nonzeros(s)[j],
            ),
    decreases s.len(),
{
    reveal_with_fuel(Seq::<u32>::filter, 2);
    if s.len() != 0 {
        lemma_nonzeros_elems(s.drop_last());
        assert forall|j: int|
            0 <= j < nonzeros(s).len() implies #[trigger] nonzeros(s)[j] != 0 && s.contains(
            nonzeros(s)[j],
        ) by {
            let nzd = nonzeros(s.drop_last());
            if j < nzd.len() {
                assert(nonzeros(s)[j] == nzd[j]);
                let u = choose|u: int| 0 <= u < s.drop_last().len() && s.drop_last()[u] == nzd[j];
                assert(s[u] == nzd[j]);
            } else {
                assert(nonzeros(s)[j] == s.last());
                assert(s[s.len() - 1] == s.last());
            }
        }
    }
}

/// A lane with no zeros is already compact.
pub proof fn lemma_nonzeros_all_nonzero(s: Seq<u32>)
    requires
        forall|j: int| 0 <= j < s.len() ==> #[trigger] s[j] != 0,
    ensures
        nonzeros(s) == s,
    decreases s.len(),
{
    reveal_with_fuel(Seq::<u32>::filter, 2);
    if s.len() != 0 {
        lemma_nonzeros_all_nonzero(s.drop_last());
        assert(nonzeros(s) =~= s);
    }
}

/// A lane of zeros has nothing to keep.
pub proof fn lemma_nonzeros_all_zero(s: Seq<u32>)
    requires
        forall|j: int| 0 <= j < s.len() ==> #[trigger] s[j] == 0,
    ensures
        nonzeros(s) == Seq::<u32>::empty(),
    decreases s.len(),
{
    reveal_with_fuel(Seq::<u32>::filter, 2);
    if s.len() != 0 {
        lemma_nonzeros_all_zero(s.drop_last());
        assert(nonzeros(s) =~= Seq::<u32>::empty());
    }
}

/// Extending a prefix by one cell extends its compacted values by that
/// cell exactly when it is nonzero.
pub proof fn lemma_nonzeros_step(s: Seq<u32>, j: int)
    requires
        0 <= j < s.len(),
    ensures
        nonzeros(s.take(j + 1)) == (if s[j] != 0 {
            nonzeros(s.take(j)).push(s[j])
        } else {
            nonzeros(s.take(j))
        }),
{
    reveal_with_fuel(Seq::<u32>::filter, 2);
    assert(s.take(j + 1).drop_last() =~= s.take(j));
    assert(s.take(j + 1).last() == s[j]);
}

/// Compaction distributes over concatenation.
pub proof fn lemma_nonzeros_concat(a: Seq<u32>, b: Seq<u32>)
    ensures
        nonzeros(a + b) == nonzeros(a) + nonzeros(b),
    decreases b.len(),
{
    reveal_with_fuel(Seq::<u32>::filter, 2);
    if b.len() == 0 {
        assert(a + b =~= a);
        assert(nonzeros(a) + nonzeros(b) =~= nonzeros(a));
    } else {
        lemma_nonzeros_concat(a, b.drop_last());
        assert((a + b).drop_last() =~= a + b.drop_last());
        if b.last() != 0 {
            assert(nonzeros(a + b) =~= nonzeros(a) + nonzeros(b));
        } else {
            assert(nonzeros(a + b) =~= nonzeros(a) + nonzeros(b));
        }
    }
}

/// A compacted lane keeps its length and its sum.
pub proof fn lemma_slide_lane_basics(s: Seq<u32>)
    ensures
        slide_lane(s).len() == s.len(),
        seq_sum(slide_lane(s)) == seq_sum(s),
    decreases s.len(),
{
    lemma_nonzeros_len(s);
    lemma_nonzeros_sum(s);
    let zs = zero_seq((s.len() - nonzeros(s).len()) as nat);
    lemma_sum_concat(nonzeros(s), zs);
    lemma_zero_seq_sum(zs.len());
}

/// Compacting a lane twice gives the same lane as compacting it once.
pub proof fn lemma_slide_lane_idempotent(s: Seq<u32>)
    ensures
        slide_lane(slide_lane(s)) == slide_lane(s),
{
    let nz = nonzeros(s);
    let zs = zero_seq((s.len() - nz.len()) as nat);
    lemma_nonzeros_len(s);
    lemma_nonzeros_concat(nz, zs);
    lemma_nonzeros_elems(s);
    lemma_nonzeros_all_nonzero(nz);
    lemma_nonzeros_all_zero(zs);
    assert(nonzeros(slide_lane(s)) == nz + Seq::<u32>::empty());
    assert(nz + Seq::<u32>::empty() =~= nz);
    assert(slide_lane(slide_lane(s)) =~= slide_lane(s));
}

/// The sum of a 4-cell lane, written out.
pub proof fn lemma_sum4(s: Seq<u32>)
    requires
        s.len() == 4,
    ensures
        seq_sum(s) == s[0] + s[1] + s[2] + s[3],
{
    reveal_with_fuel(seq_sum, 5);
    assert(s.drop_last().drop_last().drop_last().drop_last().len() == 0);
}

/// The sum of the whole board, written out.
pub proof fn lemma_sum16(g: Seq<u32>)
    requires
        g.len() == 16,
    ensures
        seq_sum(g) == g[0] + g[1] + g[2] + g[3] + g[4] + g[5] + g[6] + g[7] + g[8] + g[9] + g[10]
            + g[11] + g[12] + g[13] + g[14] + g[15],
{
    reveal_with_fuel(seq_sum, 17);
}

/// The board sum splits into the four lane sums, for any direction.
pub proof fn lemma_board_sum_lanes(g: Seq<u32>, d: Direction)
    requires
        g.len() == 16,
    ensures
        seq_sum(g) == seq_sum(lane_seq(g, d, 0)) + seq_sum(lane_seq(g, d, 1)) + seq_sum(
            lane_seq(g, d, 2),
        ) + seq_sum(lane_seq(g, d, 3)),
{
    lemma_sum16(g);
    lemma_sum4(lane_seq(g, d, 0));
    lemma_sum4(lane_seq(g, d, 1));
    lemma_sum4(lane_seq(g, d, 2));
    lemma_sum4(lane_seq(g, d, 3));
}

/// The merge pass over a lane keeps its length and its sum; the score it
/// yields lies between nothing and the lane sum.
pub proof fn lemma_merge_lane_props(s: Seq<u32>)
    requires
        s.len() == 4,
        seq_sum(s) <= u32::MAX,
    ensures
        merge_lane(s).len() == 4,
        seq_sum(merge_lane(s)) == seq_sum(s),
        0 <= lane_gain(s) <= seq_sum(s),
        forall|j: int| 0 <= j <= 3 ==> 0 <= #[trigger] gain_steps(s, j) <= lane_gain(s),
{
    let m1 = merge_steps(s, 1);
    let m2 = merge_steps(s, 2);
    let m3 = merge_steps(s, 3);
    lemma_sum4(s);
    lemma_sum4(m1);
    lemma_sum4(m2);
    lemma_sum4(m3);
}

/// After the merge pass every cell holds its old value, was emptied, or
/// was doubled exactly once.
pub proof fn lemma_merge_lane_cells(s: Seq<u32>)
    requires
        s.len() == 4,
        seq_sum(s) <= u32::MAX,
    ensures
        forall|j: int|
            0 <= j < 4 ==> {
                ||| #[trigger] merge_lane(s)[j] == s[j]
                ||| merge_lane(s)[j] == 0
                ||| (s[j] != 0 && merge_lane(s)[j] == 2 * s[j])
            },
{
    lemma_sum4(s);
    lemma_sum4(merge_steps(s, 1));
    lemma_sum4(merge_steps(s, 2));
}

/// A doubled tile is again a tile, as long as it fits.
pub proof fn lemma_tile_double(v: u32)
    requires
        is_tile(v),
        2 * v <= u32::MAX,
    ensures
        is_tile((2 * v) as u32),
{
    let w = (2 * v) as u32;
    assert(w == 2 * v);
    assert(w % 2 == 0);
    assert(w / 2 == v);
}

/// Lane `k` of the slid board is the compacted lane `k` of the board.
pub proof fn lemma_slide_board_lane(g: Seq<u32>, d: Direction, k: int)
    requires
        g.len() == 16,
        0 <= k < 4,
    ensures
        lane_seq(slide_board(g, d), d, k) == slide_lane(lane_seq(g, d, k)),
{
    lemma_slide_lane_basics(lane_seq(g, d, k));
    assert forall|j: int| 0 <= j < 4 implies lane_seq(slide_board(g, d), d, k)[j] == slide_lane(
        lane_seq(g, d, k),
    )[j] by {
        crate::direction::lemma_index_inverse(d, k, j);
    }
    assert(lane_seq(slide_board(g, d), d, k) =~= slide_lane(lane_seq(g, d, k)));
}

/// Lane `k` of the merged board is the merge pass on lane `k` of the
/// board.
pub proof fn lemma_merge_board_lane(g: Seq<u32>, d: Direction, k: int)
    requires
        g.len() == 16,
        0 <= k < 4,
    ensures
        lane_seq(merge_board(g, d), d, k) == merge_lane(lane_seq(g, d, k)),
{
    assert forall|j: int| 0 <= j < 4 implies lane_seq(merge_board(g, d), d, k)[j] == merge_lane(
        lane_seq(g, d, k),
    )[j] by {
        crate::direction::lemma_index_inverse(d, k, j);
    }
    assert(lane_seq(merge_board(g, d), d, k) =~= merge_lane(lane_seq(g, d, k)));
}

/// Sliding the board keeps its sum.
pub proof fn lemma_slide_board_sum(g: Seq<u32>, d: Direction)
    requires
        g.len() == 16,
    ensures
        slide_board(g, d).len() == 16,
        seq_sum(slide_board(g, d)) == seq_sum(g),
{
    lemma_board_sum_lanes(g, d);
    lemma_board_sum_lanes(slide_board(g, d), d);
    lemma_slide_board_lane(g, d, 0);
    lemma_slide_board_lane(g, d, 1);
    lemma_slide_board_lane(g, d, 2);
    lemma_slide_board_lane(g, d, 3);
    lemma_slide_lane_basics(lane_seq(g, d, 0));
    lemma_slide_lane_basics(lane_seq(g, d, 1));
    lemma_slide_lane_basics(lane_seq(g, d, 2));
    lemma_slide_lane_basics(lane_seq(g, d, 3));
}

/// Each lane sum is at most the board sum.
pub proof fn lemma_lane_sum_le_board(g: Seq<u32>, d: Direction, k: int)
    requires
        g.len() == 16,
        0 <= k < 4,
    ensures
        0 <= seq_sum(lane_seq(g, d, k)) <= seq_sum(g),
{
    lemma_board_sum_lanes(g, d);
    lemma_sum_nonneg(lane_seq(g, d, 0));
    lemma_sum_nonneg(lane_seq(g, d, 1));
    lemma_sum_nonneg(lane_seq(g, d, 2));
    lemma_sum_nonneg(lane_seq(g, d, 3));
}

/// The merge pass over the board keeps its sum, and the score it yields
/// lies between nothing and the board sum.
pub proof fn lemma_merge_board_sum(g: Seq<u32>, d: Direction)
    requires
        g.len() == 16,
        seq_sum(g) <= u32::MAX,
    ensures
        merge_board(g, d).len() == 16,
        seq_sum(merge_board(g, d)) == seq_sum(g),
        0 <= board_gain(g, d) <= seq_sum(g),
{
    lemma_board_sum_lanes(g, d);
    lemma_board_sum_lanes(merge_board(g, d), d);
    lemma_merge_board_lane(g, d, 0);
    lemma_merge_board_lane(g, d, 1);
    lemma_merge_board_lane(g, d, 2);
    lemma_merge_board_lane(g, d, 3);
    lemma_lane_sum_le_board(g, d, 0);
    lemma_lane_sum_le_board(g, d, 1);
    lemma_lane_sum_le_board(g, d, 2);
    lemma_lane_sum_le_board(g, d, 3);
    lemma_merge_lane_props(lane_seq(g, d, 0));
    lemma_merge_lane_props(lane_seq(g, d, 1));
    lemma_merge_lane_props(lane_seq(g, d, 2));
    lemma_merge_lane_props(lane_seq(g, d, 3));
}

} // verus!
