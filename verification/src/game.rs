use vstd::prelude::*;

use crate::direction::{Direction, lane_cell, lane_index, lane_of, pos_of};
use crate::model::{
    apply_move, board_gain, can_move, empty_board, gain_steps, gain_upto, is_full, is_terminal,
    is_tile, lane_gain, lane_seq, lemma_distinct_indices_le_16, lemma_lane_sum_le_board,
    lemma_merge_board_sum, lemma_merge_lane_props, lemma_nonzeros_elems, lemma_nonzeros_len,
    lemma_nonzeros_step, lemma_slide_board_sum, lemma_sum_update, lemma_tile_double,
    lemma_two_cells_le_sum, merge_board, merge_lane, merge_steps, merge_upto, nonzeros, pair_at,
    probe_ok, seq_sum, slide_board, slide_lane, slide_upto, valid_cell, zero_seq,
};
use crate::rng::random_below;

verus! {

/// Returned by `random` when a tile should be spawned but no cell is
/// free.
#[derive(Clone, Copy, Debug, PartialEq, Eq, Structural)]
pub struct NoFreeCellError;

/// The engine that owns a 4x4 board of tiles: the 16 cells in row-major
/// order, the index of free cells kept beside it, and the score gathered
/// from merges.
pub struct Game {
    grid: [u32; 16],
    zero: Vec<u32>,
    score: u32,
}

impl Game {
    /// The cells of the board, in row-major order.
    pub closed spec fn board(&self) -> Seq<u32> {
        self.grid@
    }

    /// The free-cell index: the indices the engine believes are empty.
    pub closed spec fn free(&self) -> Seq<u32> {
        self.zero@
    }

    /// The accumulated score.
    pub closed spec fn score_spec(&self) -> u32 {
        self.score
    }

    /// Well-formedness: the free-cell index lists exactly the indices of
    /// the empty cells, each once, and every occupied cell holds a tile.
    pub open spec fn wf(&self) -> bool {
        &&& self.board().len() == 16
        &&& self.free().no_duplicates()
        &&& forall|t: int| 0 <= t < self.free().len() ==> self.free()[t] < 16
        &&& forall|i: int|
            0 <= i < 16 ==> (self.board()[i] == 0 <==> self.free().contains(i as u32))
        &&& forall|i: int| 0 <= i < 16 ==> valid_cell(#[trigger] self.board()[i])
    }

    /// A fresh engine: every cell empty, every index free, score zero.
    pub fn new() -> (game: Game)
        ensures
            game.wf(),
            game.board() == empty_board(),
            game.free().len() == 16,
            game.score_spec() == 0,
    {
        let mut zero: Vec<u32> = Vec::new();
        let mut i: u32 = 0;
        while i < 16
            invariant
                i <= 16,
                zero@.len() == i,
                forall|t: int| 0 <= t < i ==> zero@[t] == t,
            decreases 16 - i,
        {
            zero.push(i);
            i = i + 1;
        }
        let game = Game { grid: [0u32; 16], zero, score: 0 };
        proof {
            assert(game.board() =~= empty_board());
            assert forall|idx: int| 0 <= idx < 16 implies game.free().contains(
                #[trigger] (idx as u32),
            ) by {
                assert(game.free()[idx] == idx as u32);
            }
        }
        game
    }

    /// Empty the board, free every cell and reset the score.
    pub fn restart(&mut self)
        ensures
            final(self).wf(),
            final(self).board() == empty_board(),
            final(self).score_spec() == 0,
    {
        *self = Game::new();
    }

    /// A copy of the board for the caller to read.
    pub fn copy_grid(&self) -> (g: [u32; 16])
        ensures
            g@ == self.board(),
    {
        self.grid
    }

    /// The accumulated score.
    pub fn score(&self) -> (s: u32)
        ensures
            s == self.score_spec(),
    {
        self.score
    }

    /// A copy of the free-cell index: exactly the indices of empty cells,
    /// each once, in no promised order.
    pub fn free_cells(&self) -> (free: Vec<u32>)
        requires
            self.wf(),
        ensures
            free@.no_duplicates(),
            forall|t: int| 0 <= t < free@.len() ==> free@[t] < 16,
            forall|i: int| 0 <= i < 16 ==> (free@.contains(i as u32) <==> self.board()[i] == 0),
    {
        let mut out: Vec<u32> = Vec::new();
        let mut t: usize = 0;
        while t < self.zero.len()
            invariant
                t <= self.zero@.len(),
                out@ =~= self.zero@.take(t as int),
            decreases self.zero@.len() - t,
        {
            out.push(self.zero[t]);
            t = t + 1;
        }
        proof {
            assert(out@ =~= self.zero@);
        }
        out
    }

    /// Drop index `i` from the free-cell index, which must hold it.
    fn remove_zero(&mut self, i: usize)
        requires
            i < 16,
            old(self).zero@.no_duplicates(),
            old(self).zero@.contains(i as u32),
        ensures
            final(self).grid == old(self).grid,
            final(self).score == old(self).score,
            final(self).zero@.no_duplicates(),
            final(self).zero@.len() == old(self).zero@.len() - 1,
            forall|x: u32|
                final(self).zero@.contains(x) <==> (old(self).zero@.contains(x) && x != i),
    {
        let ghost z0 = self.zero@;
        let mut t: usize = 0;
        while t < self.zero.len() && self.zero[t] as usize != i
            invariant
                i < 16,
                t <= z0.len(),
                self.zero@ == z0,
                forall|u: int| 0 <= u < t ==> z0[u] != i as u32,
            decreases z0.len() - t,
        {
            t = t + 1;
        }
        proof {
            let w = choose|w: int| 0 <= w < z0.len() && z0[w] == i as u32;
            assert(t < z0.len());
        }
        self.zero.swap_remove(t);
        proof {
            let z1 = self.zero@;
            assert(z1 == z0.update(t as int, z0.last()).drop_last());
            assert forall|u: int, v: int|
                0 <= u < z1.len() && 0 <= v < z1.len() && u != v implies z1[u] != z1[v] by {
                assert(z1[u] == if u == t as int { z0[z0.len() - 1] } else { z0[u] });
                assert(z1[v] == if v == t as int { z0[z0.len() - 1] } else { z0[v] });
            }
            assert forall|x: u32| z1.contains(x) implies (z0.contains(x) && x != i) by {
                let u = choose|u: int| 0 <= u < z1.len() && z1[u] == x;
                if u == t as int {
                    assert(z0[z0.len() - 1] == x);
                } else {
                    assert(z0[u] == x);
                }
                assert(z0[t as int] == i as u32);
                if x == i {
                    let v = choose|v: int| 0 <= v < z0.len() && z0[v] == x;
                    assert(false);
                }
            }
            assert forall|x: u32| z0.contains(x) && x != i implies z1.contains(x) by {
                let u = choose|u: int| 0 <= u < z0.len() && z0[u] == x;
                if u == z0.len() - 1 {
                    if t as int == u {
                        assert(z0[t as int] == i as u32);
                        assert(false);
                    }
                    assert(z1[t as int] == x);
                } else if u == t as int {
                    assert(z0[t as int] == i as u32);
                    assert(false);
                } else {
                    assert(z1[u] == x);
                }
            }
        }
    }

    /// Put value `v` into cell `i` and keep the free-cell index in step.
    fn write_cell(&mut self, i: usize, v: u32)
        requires
            old(self).wf(),
            i < 16,
            valid_cell(v),
        ensures
            final(self).wf(),
            final(self).board() == old(self).board().update(i as int, v),
            final(self).score_spec() == old(self).score_spec(),
    {
        let cur = self.grid[i];
        if cur == 0 && v != 0 {
            self.remove_zero(i);
        } else if cur != 0 && v == 0 {
            self.zero.push(i as u32);
            proof {
                let z0 = old(self).zero@;
                let z1 = self.zero@;
                assert forall|u: int, v2: int|
                    0 <= u < z1.len() && 0 <= v2 < z1.len() && u != v2 implies z1[u] != z1[v2] by {
                    if u < z0.len() && v2 < z0.len() {
                    } else if u == z0.len() {
                        if z0[v2] == i as u32 {
                            assert(z0.contains(i as u32));
                        }
                    } else {
                        if z0[u] == i as u32 {
                            assert(z0.contains(i as u32));
                        }
                    }
                }
            }
        }
        self.grid[i] = v;
        proof {
            assert(self.board() =~= old(self).board().update(i as int, v));
            let g1 = self.board();
            let z1 = self.zero@;
            let z0 = old(self).zero@;
            assert forall|c: int| 0 <= c < 16 implies (g1[c] == 0 <==> z1.contains(
                c as u32,
            )) by {
                if c == i as int {
                    if v == 0 && cur != 0 {
                        assert(z1[z1.len() - 1] == i as u32);
                    }
                } else {
                    if cur == 0 && v != 0 {
                    } else if cur != 0 && v == 0 {
                        if z1.contains(c as u32) && g1[c] != 0 {
                            let u = choose|u: int| 0 <= u < z1.len() && z1[u] == c as u32;
                            assert(u < z0.len());
                            assert(z0.contains(c as u32));
                        }
                        if g1[c] == 0 {
                            let u = choose|u: int| 0 <= u < z0.len() && z0[u] == c as u32;
                            assert(z1[u] == c as u32);
                        }
                    }
                }
            }
            assert(self.board().len() == 16);
            assert(self.zero@.no_duplicates());
            assert forall|t: int| 0 <= t < self.zero@.len() implies self.zero@[t] < 16 by {
                let x = z1[t];
                assert(z1.contains(x));
                if z1.len() < z0.len() {
                    assert(z0.contains(x));
                    let u = choose|u: int| 0 <= u < z0.len() && z0[u] == x;
                    assert(z0[u] < 16);
                } else if z1.len() > z0.len() {
                    if t < z0.len() {
                        assert(z0[t] < 16);
                    } else {
                        assert(x == i as u32);
                    }
                } else {
                    assert(z0[t] < 16);
                }
            }
            assert(forall|c: int| 0 <= c < 16 ==> valid_cell(#[trigger] self.board()[c]));
        }
    }

    /// Compact lane `k` under `d`: its tiles slide toward position 0,
    /// keeping their order; every other lane is left alone.
    #[verifier::rlimit(80)]
    fn slide_one_lane(&mut self, d: Direction, k: usize)
        requires
            old(self).wf(),
            k < 4,
        ensures
            final(self).wf(),
            final(self).score_spec() == old(self).score_spec(),
            forall|i: int|
                0 <= i < 16 && lane_of(d, i) != k ==> final(self).board()[i] == old(
                    self,
                ).board()[i],
            forall|i: int|
                0 <= i < 16 && lane_of(d, i) == k ==> final(self).board()[i] == slide_lane(
                    lane_seq(old(self).board(), d, k as int),
                )[pos_of(d, i)],
    {
        let ghost s = lane_seq(old(self).board(), d, k as int);
        let c0 = lane_cell(d, k, 0);
        let c1 = lane_cell(d, k, 1);
        let c2 = lane_cell(d, k, 2);
        let c3 = lane_cell(d, k, 3);
        let v0 = self.grid[c0];
        let v1 = self.grid[c1];
        let v2 = self.grid[c2];
        let v3 = self.grid[c3];
        proof {
            assert(s[0] == v0 && s[1] == v1 && s[2] == v2 && s[3] == v3);
        }
        let mut vals: Vec<u32> = Vec::new();
        proof {
            reveal_with_fuel(Seq::<u32>::filter, 2);
            assert(s.take(0) =~= Seq::<u32>::empty());
            assert(vals@ =~= nonzeros(s.take(0)));
        }
        if v0 != 0 {
            vals.push(v0);
        }
        proof {
            lemma_nonzeros_step(s, 0);
            assert(vals@ == nonzeros(s.take(1)));
        }
        if v1 != 0 {
            vals.push(v1);
        }
        proof {
            lemma_nonzeros_step(s, 1);
            assert(vals@ == nonzeros(s.take(2)));
        }
        if v2 != 0 {
            vals.push(v2);
        }
        proof {
            lemma_nonzeros_step(s, 2);
            assert(vals@ == nonzeros(s.take(3)));
        }
        if v3 != 0 {
            vals.push(v3);
        }
        proof {
            lemma_nonzeros_step(s, 3);
            assert(s.take(4) =~= s);
            assert(vals@ == nonzeros(s));
            lemma_nonzeros_len(s);
            lemma_nonzeros_elems(s);
        }
        let ghost n = vals@.len();
        while vals.len() < 4
            invariant
                n == nonzeros(s).len(),
                n <= vals@.len() <= 4,
                vals@.take(n as int) == nonzeros(s),
                forall|t: int| n <= t < vals@.len() ==> vals@[t] == 0,
            decreases 4 - vals.len(),
        {
            vals.push(0);
            proof {
                assert(vals@.take(n as int) =~= nonzeros(s));
            }
        }
        proof {
            assert(vals@ =~= nonzeros(s) + zero_seq((4 - n) as nat));
            assert(vals@ == slide_lane(s));
            assert forall|t: int| 0 <= t < 4 implies valid_cell(#[trigger] vals@[t]) by {
                if t < n {
                    let u = choose|u: int| 0 <= u < s.len() && s[u] == nonzeros(s)[t];
                    crate::direction::lemma_index_inverse(d, k as int, u);
                    assert(s[u] == old(self).board()[lane_index(d, k as int, u)]);
                }
            }
        }
        let w0 = vals[0];
        let w1 = vals[1];
        let w2 = vals[2];
        let w3 = vals[3];
        self.write_cell(c0, w0);
        self.write_cell(c1, w1);
        self.write_cell(c2, w2);
        self.write_cell(c3, w3);
        proof {
            assert forall|i: int| 0 <= i < 16 && lane_of(d, i) != k implies self.board()[i] == old(
                self,
            ).board()[i] by {
                crate::direction::lemma_lane_inverse(d, i);
                crate::direction::lemma_index_inverse(d, k as int, 0);
                crate::direction::lemma_index_inverse(d, k as int, 1);
                crate::direction::lemma_index_inverse(d, k as int, 2);
                crate::direction::lemma_index_inverse(d, k as int, 3);
            }
            assert forall|i: int| 0 <= i < 16 && lane_of(d, i) == k implies self.board()[i]
                == slide_lane(s)[pos_of(d, i)] by {
                crate::direction::lemma_lane_inverse(d, i);
                crate::direction::lemma_index_inverse(d, k as int, 0);
                crate::direction::lemma_index_inverse(d, k as int, 1);
                crate::direction::lemma_index_inverse(d, k as int, 2);
                crate::direction::lemma_index_inverse(d, k as int, 3);
            }
        }
    }

    /// Slide every tile as far as it goes in direction `d`, keeping the
    /// relative order of the tiles in each lane; merges nothing.
    pub fn move_zero(&mut self, d: Direction)
        requires
            old(self).wf(),
        ensures
            final(self).wf(),
            final(self).board() == slide_board(old(self).board(), d),
            final(self).score_spec() == old(self).score_spec(),
    {
        let ghost g0 = old(self).board();
        let mut k: usize = 0;
        while k < 4
            invariant
                self.wf(),
                g0.len() == 16,
                self.board() == slide_upto(g0, d, k as int),
                self.score_spec() == old(self).score_spec(),
                k <= 4,
            decreases 4 - k,
        {
            proof {
                assert(self.board() =~= slide_upto(g0, d, k as int));
                assert forall|j: int| 0 <= j < 4 implies lane_seq(self.board(), d, k as int)[j]
                    == lane_seq(g0, d, k as int)[j] by {
                    crate::direction::lemma_index_inverse(d, k as int, j);
                }
                assert(lane_seq(self.board(), d, k as int) =~= lane_seq(g0, d, k as int));
            }
            let ghost before = self.board();
            self.slide_one_lane(d, k);
            proof {
                assert forall|i: int| 0 <= i < 16 implies self.board()[i] == slide_upto(
                    g0,
                    d,
                    k as int + 1,
                )[i] by {
                    crate::direction::lemma_lane_inverse(d, i);
                    if lane_of(d, i) == k {
                        assert(self.board()[i] == slide_lane(lane_seq(before, d, k as int))[pos_of(
                            d,
                            i,
                        )]);
                    }
                }
                assert(self.board() =~= slide_upto(g0, d, k as int + 1));
            }
            k = k + 1;
        }
        proof {
            assert(slide_upto(g0, d, 4) =~= slide_board(g0, d)) by {
                assert forall|i: int| 0 <= i < 16 implies lane_of(d, i) < 4 by {
                    crate::direction::lemma_lane_inverse(d, i);
                }
            }
        }
    }

    /// One merge comparison inside lane `k` under `d`, at lane positions
    /// `j` and `j + 1`: two equal tiles combine into the cell nearer the
    /// edge, the doubled value joining the score.
    #[verifier::rlimit(100)]
    fn merge_one_pair(&mut self, d: Direction, k: usize, j: usize, Ghost(s): Ghost<Seq<u32>>)
        requires
            old(self).wf(),
            k < 4,
            j < 3,
            s.len() == 4,
            seq_sum(s) <= u32::MAX,
            seq_sum(old(self).board()) <= u32::MAX,
            old(self).score_spec() + lane_gain(s) - gain_steps(s, j as int) <= u32::MAX,
            forall|i: int|
                0 <= i < 16 && lane_of(d, i) == k ==> old(self).board()[i] == merge_steps(
                    s,
                    j as int,
                )[pos_of(d, i)],
        ensures
            final(self).wf(),
            forall|i: int|
                0 <= i < 16 && lane_of(d, i) != k ==> final(self).board()[i] == old(
                    self,
                ).board()[i],
            forall|i: int|
                0 <= i < 16 && lane_of(d, i) == k ==> final(self).board()[i] == merge_steps(
                    s,
                    j as int + 1,
                )[pos_of(d, i)],
            final(self).score_spec() == old(self).score_spec() + gain_steps(s, j as int + 1)
                - gain_steps(s, j as int),
            seq_sum(final(self).board()) == seq_sum(old(self).board()),
    {
        let ghost sj = merge_steps(s, j as int);
        let ca = lane_cell(d, k, j);
        let cb = lane_cell(d, k, j + 1);
        proof {
            crate::direction::lemma_index_inverse(d, k as int, j as int);
            crate::direction::lemma_index_inverse(d, k as int, j as int + 1);
            lemma_merge_lane_props(s);
        }
        let a = self.grid[ca];
        let b = self.grid[cb];
        proof {
            assert(a == sj[j as int] && b == sj[j as int + 1]);
        }
        if a != 0 && a == b {
            proof {
                lemma_two_cells_le_sum(self.board(), ca as int, cb as int);
                assert(is_tile(a));
                lemma_tile_double(a);
                lemma_sum_update(self.board(), ca as int, (2 * a) as u32);
                lemma_sum_update(self.board().update(ca as int, (2 * a) as u32), cb as int, 0u32);
            }
            let doubled = a + a;
            self.write_cell(ca, doubled);
            self.write_cell(cb, 0);
            self.score = self.score + doubled;
        }
        proof {
            assert forall|i: int| 0 <= i < 16 && lane_of(d, i) == k implies self.board()[i]
                == merge_steps(s, j as int + 1)[pos_of(d, i)] by {
                crate::direction::lemma_lane_inverse(d, i);
            }
        }
    }

    /// Merge lane `k` under `d`: one sweep over its three adjacent pairs
    /// from position 0 on; every other lane is left alone.
    fn merge_one_lane(&mut self, d: Direction, k: usize)
        requires
            old(self).wf(),
            k < 4,
            seq_sum(old(self).board()) <= u32::MAX,
            old(self).score_spec() + lane_gain(lane_seq(old(self).board(), d, k as int))
                <= u32::MAX,
        ensures
            final(self).wf(),
            forall|i: int|
                0 <= i < 16 && lane_of(d, i) != k ==> final(self).board()[i] == old(
                    self,
                ).board()[i],
            forall|i: int|
                0 <= i < 16 && lane_of(d, i) == k ==> final(self).board()[i] == merge_lane(
                    lane_seq(old(self).board(), d, k as int),
                )[pos_of(d, i)],
            final(self).score_spec() == old(self).score_spec() + lane_gain(
                lane_seq(old(self).board(), d, k as int),
            ),
            seq_sum(final(self).board()) == seq_sum(old(self).board()),
    {
        let ghost s = lane_seq(old(self).board(), d, k as int);
        proof {
            lemma_lane_sum_le_board(old(self).board(), d, k as int);
            lemma_merge_lane_props(s);
            assert forall|i: int| 0 <= i < 16 && lane_of(d, i) == k implies old(self).board()[i]
                == merge_steps(s, 0)[pos_of(d, i)] by {
                crate::direction::lemma_lane_inverse(d, i);
            }
        }
        self.merge_one_pair(d, k, 0, Ghost(s));
        self.merge_one_pair(d, k, 1, Ghost(s));
        self.merge_one_pair(d, k, 2, Ghost(s));
    }

    /// Run the merge pass in direction `d`: each lane is swept once from
    /// its edge, equal adjacent tiles combine into one of double value,
    /// and each doubled value is added to the score.
    pub fn compare(&mut self, d: Direction)
        requires
            old(self).wf(),
            seq_sum(old(self).board()) + old(self).score_spec() <= u32::MAX,
        ensures
            final(self).wf(),
            final(self).board() == merge_board(old(self).board(), d),
            final(self).score_spec() == old(self).score_spec() + board_gain(
                old(self).board(),
                d,
            ),
            seq_sum(final(self).board()) == seq_sum(old(self).board()),
    {
        let ghost g0 = old(self).board();
        proof {
            lemma_merge_board_sum(g0, d);
            lemma_lane_sum_le_board(g0, d, 0);
            lemma_lane_sum_le_board(g0, d, 1);
            lemma_lane_sum_le_board(g0, d, 2);
            lemma_lane_sum_le_board(g0, d, 3);
            lemma_merge_lane_props(lane_seq(g0, d, 0));
            lemma_merge_lane_props(lane_seq(g0, d, 1));
            lemma_merge_lane_props(lane_seq(g0, d, 2));
            lemma_merge_lane_props(lane_seq(g0, d, 3));
        }
        let mut k: usize = 0;
        while k < 4
            invariant
                self.wf(),
                g0.len() == 16,
                k <= 4,
                seq_sum(g0) + old(self).score_spec() <= u32::MAX,
                0 <= lane_gain(lane_seq(g0, d, 0)),
                0 <= lane_gain(lane_seq(g0, d, 1)),
                0 <= lane_gain(lane_seq(g0, d, 2)),
                0 <= lane_gain(lane_seq(g0, d, 3)),
                old(self).score_spec() + gain_upto(g0, d, 4) <= u32::MAX,
                self.board() == merge_upto(g0, d, k as int),
                self.score_spec() == old(self).score_spec() + gain_upto(g0, d, k as int),
                seq_sum(self.board()) == seq_sum(g0),
            decreases 4 - k,
        {
            proof {
                assert forall|j: int| 0 <= j < 4 implies lane_seq(self.board(), d, k as int)[j]
                    == lane_seq(g0, d, k as int)[j] by {
                    crate::direction::lemma_index_inverse(d, k as int, j);
                }
                assert(lane_seq(self.board(), d, k as int) =~= lane_seq(g0, d, k as int));
                assert(gain_upto(g0, d, k as int) + lane_gain(lane_seq(g0, d, k as int))
                    == gain_upto(g0, d, k as int + 1));
                assert(gain_upto(g0, d, k as int + 1) <= gain_upto(g0, d, 4));
            }
            let ghost before = self.board();
            self.merge_one_lane(d, k);
            proof {
                assert forall|i: int| 0 <= i < 16 implies self.board()[i] == merge_upto(
                    g0,
                    d,
                    k as int + 1,
                )[i] by {
                    crate::direction::lemma_lane_inverse(d, i);
                    if lane_of(d, i) == k {
                        assert(self.board()[i] == merge_lane(lane_seq(before, d, k as int))[pos_of(
                            d,
                            i,
                        )]);
                    }
                }
                assert(self.board() =~= merge_upto(g0, d, k as int + 1));
            }
            k = k + 1;
        }
        proof {
            assert(merge_upto(g0, d, 4) =~= merge_board(g0, d)) by {
                assert forall|i: int| 0 <= i < 16 implies lane_of(d, i) < 4 by {
                    crate::direction::lemma_lane_inverse(d, i);
                }
            }
        }
    }

    /// Perform the full move in direction `d`: slide, merge once, slide
    /// again to close the gaps the merges opened. Says whether any cell
    /// changed, which is when a new tile should be spawned.
    pub fn action(&mut self, d: Direction) -> (changed: bool)
        requires
            old(self).wf(),
            seq_sum(old(self).board()) + old(self).score_spec() <= u32::MAX,
        ensures
            final(self).wf(),
            final(self).board() == apply_move(old(self).board(), d),
            final(self).score_spec() == old(self).score_spec() + board_gain(
                slide_board(old(self).board(), d),
                d,
            ),
            seq_sum(final(self).board()) == seq_sum(old(self).board()),
            changed == (final(self).board() != old(self).board()),
    {
        let ghost g0 = old(self).board();
        let before = self.copy_grid();
        proof {
            lemma_slide_board_sum(g0, d);
        }
        self.move_zero(d);
        self.compare(d);
        self.move_zero(d);
        proof {
            lemma_slide_board_sum(merge_board(slide_board(g0, d), d), d);
        }
        let after = self.copy_grid();
        let mut same = true;
        let mut i: usize = 0;
        while i < 16
            invariant
                i <= 16,
                before@.len() == 16,
                after@.len() == 16,
                same <==> (forall|t: int| 0 <= t < i ==> before@[t] == after@[t]),
            decreases 16 - i,
        {
            if before[i] != after[i] {
                same = false;
            }
            i = i + 1;
        }
        proof {
            if same {
                assert(g0 =~= self.board());
            }
        }
        !same
    }

    /// Whether the move in direction `d` is possible: some occupied cell
    /// has an empty or equal-valued neighbour one step onward.
    pub fn partial_move(&self, d: Direction) -> (possible: bool)
        requires
            self.wf(),
        ensures
            possible == can_move(self.board(), d),
    {
        let mut i: usize = 0;
        while i < 16
            invariant
                i <= 16,
                self.wf(),
                forall|t: int| 0 <= t < i ==> !probe_ok(self.board(), d, t),
            decreases 16 - i,
        {
            let v = self.grid[i];
            if v != 0 {
                let ok = match d {
                    Direction::Up => i >= 4 && (self.grid[i - 4] == 0 || self.grid[i - 4] == v),
                    Direction::Down => i < 12 && (self.grid[i + 4] == 0 || self.grid[i + 4] == v),
                    Direction::Left => i % 4 != 0 && (self.grid[i - 1] == 0 || self.grid[i - 1]
                        == v),
                    Direction::Right => i % 4 != 3 && (self.grid[i + 1] == 0 || self.grid[i + 1]
                        == v),
                };
                if ok {
                    proof {
                        assert(probe_ok(self.board(), d, i as int));
                    }
                    return true;
                }
            }
            proof {
                assert(!probe_ok(self.board(), d, i as int));
            }
            i = i + 1;
        }
        false
    }

    /// Whether the game is over: no cell is free and no two equal tiles
    /// stand next to each other in any row or column, so no move can
    /// change the board.
    pub fn is_gameover(&self) -> (over: bool)
        requires
            self.wf(),
        ensures
            over == is_terminal(self.board()),
    {
        if self.zero.len() > 0 {
            proof {
                let t = self.zero@[0];
                assert(self.zero@.contains(t));
                assert(self.board()[t as int] == 0);
            }
            return false;
        }
        let mut i: usize = 0;
        while i < 15
            invariant
                i <= 15,
                self.wf(),
                forall|t: int| 0 <= t < i ==> !pair_at(self.board(), t),
            decreases 15 - i,
        {
            let v = self.grid[i];
            let pair_right = i % 4 != 3 && self.grid[i + 1] == v;
            let pair_down = i < 12 && self.grid[i + 4] == v;
            if pair_right || pair_down {
                proof {
                    assert(pair_at(self.board(), i as int));
                }
                return false;
            }
            i = i + 1;
        }
        proof {
            assert(!pair_at(self.board(), 15));
            assert forall|c: int| 0 <= c < 16 implies self.board()[c] != 0 by {
                if self.board()[c] == 0 {
                    assert(self.free().contains(c as u32));
                }
            }
        }
        true
    }

    /// Draw a tile value for a fresh tile: 2 with four chances in five,
    /// otherwise 4.
    fn random_2_4() -> (v: u32)
        ensures
            v == 2 || v == 4,
    {
        if random_below(5) < 4 {
            2
        } else {
            4
        }
    }

    /// Spawn one tile: a free cell picked uniformly at random receives a
    /// 2 (four chances in five) or a 4. Fails exactly when no cell is
    /// free; the board is then left as it was.
    pub fn random(&mut self) -> (r: Result<(), NoFreeCellError>)
        requires
            old(self).wf(),
        ensures
            final(self).wf(),
            final(self).score_spec() == old(self).score_spec(),
            r is Ok <==> !is_full(old(self).board()),
            r is Err ==> *final(self) == *old(self),
            r is Ok ==> exists|i: int|
                0 <= i < 16 && old(self).board()[i] == 0 && (final(self).board() == old(
                    self,
                ).board().update(i, 2u32) || final(self).board() == old(self).board().update(
                    i,
                    4u32,
                )),
    {
        if self.zero.len() == 0 {
            proof {
                assert forall|c: int| 0 <= c < 16 implies old(self).board()[c] != 0 by {
                    if old(self).board()[c] == 0 {
                        assert(old(self).free().contains(c as u32));
                    }
                }
            }
            return Err(NoFreeCellError);
        }
        proof {
            lemma_distinct_indices_le_16(self.zero@);
        }
        let pick = random_below(self.zero.len() as u32) as usize;
        let cell = self.zero[pick] as usize;
        proof {
            assert(self.zero@.contains(self.zero@[pick as int]));
            assert(self.board()[cell as int] == 0);
            assert(!is_full(old(self).board()));
        }
        let v = Game::random_2_4();
        proof {
            assert(is_tile(2u32));
            assert(is_tile(4u32));
        }
        self.write_cell(cell, v);
        proof {
            let i = cell as int;
            assert(0 <= i < 16 && old(self).board()[i] == 0 && (self.board() == old(
                self,
            ).board().update(i, 2u32) || self.board() == old(self).board().update(i, 4u32)));
        }
        Ok(())
    }

    /// A fresh game with three tiles placed at random: each picked cell
    /// receives a 2 (four chances in five) or a 4; picks that land on the
    /// same cell leave fewer distinct tiles.
    pub fn init_first_elements() -> (game: Game)
        ensures
            game.wf(),
            game.score_spec() == 0,
            exists|a: int, b: int, c: int, va: u32, vb: u32, vc: u32|
                0 <= a < 16 && 0 <= b < 16 && 0 <= c < 16 && (va == 2 || va == 4) && (vb == 2
                    || vb == 4) && (vc == 2 || vc == 4) && game.board() == empty_board().update(
                    a,
                    va,
                ).update(b, vb).update(c, vc),
    {
        let mut game = Game::new();
        proof {
            assert(is_tile(2u32));
            assert(is_tile(4u32));
        }
        let a = random_below(16) as usize;
        let va = Game::random_2_4();
        game.write_cell(a, va);
        let b = random_below(16) as usize;
        let vb = Game::random_2_4();
        game.write_cell(b, vb);
        let c = random_below(16) as usize;
        let vc = Game::random_2_4();
        game.write_cell(c, vc);
        game
    }

    /// The four lanes of direction `d`: the cell indices of each lane in
    /// order, position 0 being the cell furthest in the direction of
    /// travel. Meant for a caller that replays a move cell by cell.
    pub fn direction(&self, d: Direction) -> (lanes: Vec<Vec<usize>>)
        ensures
            lanes@.len() == 4,
            forall|k: int| 0 <= k < 4 ==> #[trigger] lanes@[k]@.len() == 4,
            forall|k: int, j: int|
                0 <= k < 4 && 0 <= j < 4 ==> #[trigger] lanes@[k]@[j] == lane_index(d, k, j),
    {
        let mut lanes: Vec<Vec<usize>> = Vec::new();
        let mut k: usize = 0;
        while k < 4
            invariant
                k <= 4,
                lanes@.len() == k,
                forall|t: int| 0 <= t < k ==> #[trigger] lanes@[t]@.len() == 4,
                forall|t: int, j: int|
                    0 <= t < k && 0 <= j < 4 ==> #[trigger] lanes@[t]@[j] == lane_index(d, t, j),
            decreases 4 - k,
        {
            let mut lane: Vec<usize> = Vec::new();
            let mut j: usize = 0;
            while j < 4
                invariant
                    j <= 4,
                    k < 4,
                    lane@.len() == j,
                    forall|t: int| 0 <= t < j ==> #[trigger] lane@[t] == lane_index(d, k as int, t),
                decreases 4 - j,
            {
                lane.push(lane_cell(d, k, j));
                j = j + 1;
            }
            lanes.push(lane);
            k = k + 1;
        }
        lanes
    }

    /// Place value `v` at cell `i` (0 empties the cell); meant for laying
    /// out a position by hand.
    pub fn set_cell(&mut self, i: usize, v: u32)
        requires
            old(self).wf(),
            i < 16,
            v == 0 || is_tile(v),
        ensures
            final(self).wf(),
            final(self).board() == old(self).board().update(i as int, v),
            final(self).score_spec() == old(self).score_spec(),
    {
        self.write_cell(i, v);
    }
}

} // verus!
