use vstd::pervasive::unreached;
use vstd::prelude::*;
use vstd::string::StrSliceExecFns;

use crate::SudokuError;
use crate::bits::bits_count_zeros;
use crate::bits::bits_from_elem;
use crate::bits::bits_set;
use crate::bits::bitvec_bits;
use crate::bits::count_false;
use crate::bits::lemma_count_false_le_len;
use crate::grid::Cell;
use crate::grid::assigned_before;
use crate::grid::block_cell;
use crate::grid::block_cell_idx;
use crate::grid::block_clues_distinct;
use crate::grid::block_done;
use crate::grid::block_has_exactly;
use crate::grid::block_of;
use crate::grid::blocks_valid;
use crate::grid::cell_index;
use crate::grid::cell_valid;
use crate::grid::cells_duplicate;
use crate::grid::cells_to_string;
use crate::grid::clues_consistent;
use crate::grid::complementary;
use crate::grid::count_true;
use crate::grid::digit_in_group;
use crate::grid::empties_upto;
use crate::grid::fixed_in_block;
use crate::grid::grid_wf;
use crate::grid::group_cell;
use crate::grid::group_cell_idx;
use crate::grid::intra_block_swap;
use crate::grid::is_digit_char;
use crate::grid::lemma_all_blocks_done;
use crate::grid::lemma_assign_digit;
use crate::grid::lemma_block_cell_bounds;
use crate::grid::lemma_block_done_frame;
use crate::grid::lemma_count_full_all_true;
use crate::grid::lemma_count_lt_exists_false;
use crate::grid::lemma_count_true_push;
use crate::grid::lemma_count_true_update;
use crate::grid::lemma_empties_monotone;
use crate::grid::lemma_missing_upto_bounds;
use crate::grid::lemma_somes_plus_empties;
use crate::grid::merge_cell;
use crate::grid::merge_spec;
use crate::grid::missing_upto;
use crate::grid::parse_cell;
use crate::grid::parse_spec;
use crate::grid::score_spec;
use crate::grid::score_upto;
use crate::grid::serialize_spec;
use crate::grid::somes_upto;
use crate::grid::swap_seq;
use crate::grid::text_valid;
use crate::grid::two_filled_in_block;
use crate::rng::random_below;

verus! {

/// A candidate: a 9x9 grid holding a tentative digit for every cell the
/// puzzle leaves empty, valid within every 3x3 block by construction.
pub struct Solution {
    pub(crate) cells: Vec<Cell>,
}

impl View for Solution {
    type V = Seq<Cell>;

    closed spec fn view(&self) -> Seq<Cell> {
        self.cells@
    }
}

impl Clone for Solution {
    fn clone(&self) -> (r: Self)
        ensures
            r@ == self@,
    {
        Solution { cells: cells_duplicate(&self.cells) }
    }
}

impl Solution {
    /// 81 cells, each empty or a digit 1..=9.
    pub open spec fn wf(&self) -> bool {
        grid_wf(self@)
    }

    /// Reinterprets a board's grid as a candidate.
    pub fn from_board(board: Board) -> (r: Self)
        ensures
            r@ == board@,
    {
        Solution { cells: board.cells }
    }

    /// The cell at `row`, `col`.
    pub fn get(&self, row: usize, col: usize) -> (c: Cell)
        requires
            self.wf(),
            row < 9,
            col < 9,
        ensures
            c == self@[cell_index(row as int, col as int)],
    {
        self.cells[row * 9 + col]
    }

    /// Renders the candidate as 81 digit characters, '0' for empty cells.
    pub fn to_clean_string(&self) -> (r: String)
        requires
            self.wf(),
        ensures
            r@ == serialize_spec(self@),
    {
        cells_to_string(&self.cells)
    }

    /// Builds a candidate for `board`: fills each block's empty cells with
    /// the digits its clues are missing, so that every block of the merged
    /// grid holds each digit 1..=9 exactly once. Fails with a conflict error
    /// exactly when a digit repeats among the clues of one block.
    pub fn new_from_board(board: &Board) -> (r: Result<Self, SudokuError>)
        requires
            board.wf(),
        ensures
            (r is Ok) <==> clues_consistent(board@),
            r matches Err(e) ==> e == SudokuError::Conflict,
            r matches Ok(sol) ==> sol.wf() && complementary(board@, sol@) && blocks_valid(
                merge_spec(board@, sol@),
            ),
    {
        let mut cells: Vec<Cell> = Vec::new();
        let mut i: usize = 0;
        while i < 81
            invariant
                i <= 81,
                cells@.len() == i,
                forall|j: int| 0 <= j < i ==> (#[trigger] cells@[j]) is None,
            decreases 81 - i,
        {
            cells.push(None);
            i += 1;
        }
        let mut b: usize = 0;
        while b < 9
            invariant
                board.wf(),
                b <= 9,
                cells@.len() == 81,
                forall|i2: int| 0 <= i2 < 81 ==> cell_valid(#[trigger] cells@[i2]),
                forall|i2: int|
                    0 <= i2 < 81 && block_of(i2) >= b ==> (#[trigger] cells@[i2]) is None,
                forall|b2: int| 0 <= b2 < b ==> #[trigger] block_done(board@, cells@, b2),
                forall|b2: int| 0 <= b2 < b ==> #[trigger] block_clues_distinct(board@, b2),
            decreases 9 - b,
        {
            let ghost before = cells@;
            match fill_block(board, &mut cells, b) {
                Ok(()) => {},
                Err(e) => {
                    proof {
                        assert(!block_clues_distinct(board@, b as int));
                        assert(!clues_consistent(board@));
                    }
                    return Err(e);
                },
            }
            proof {
                assert forall|b2: int| 0 <= b2 < b + 1 implies #[trigger] block_done(
                    board@,
                    cells@,
                    b2,
                ) by {
                    if b2 < b {
                        lemma_block_done_frame(board@, before, cells@, b2);
                    }
                }
            }
            b += 1;
        }
        proof {
            lemma_all_blocks_done(board@, cells@);
        }
        Ok(Solution { cells })
    }

    /// Exchanges the values held at two cell positions unconditionally.
    pub fn flip_spaces(&mut self, x1: usize, y1: usize, x2: usize, y2: usize)
        requires
            old(self).wf(),
            x1 < 9,
            y1 < 9,
            x2 < 9,
            y2 < 9,
        ensures
            final(self).wf(),
            final(self)@ == swap_seq(old(self)@, cell_index(x1 as int, y1 as int), cell_index(
                x2 as int,
                y2 as int,
            )),
    {
        let a = x1 * 9 + y1;
        let b = x2 * 9 + y2;
        let va = self.cells[a];
        let vb = self.cells[b];
        self.cells.set(a, vb);
        self.cells.set(b, va);
    }
}

/// The puzzle: a 9x9 grid whose `Some` cells are the given clues.
pub struct Board {
    pub(crate) cells: Vec<Cell>,
}

impl View for Board {
    type V = Seq<Cell>;

    closed spec fn view(&self) -> Seq<Cell> {
        self.cells@
    }
}

impl Clone for Board {
    fn clone(&self) -> (r: Self)
        ensures
            r@ == self@,
    {
        Board { cells: cells_duplicate(&self.cells) }
    }
}

/// The cell denoted by one entry of a digit array, 0 meaning empty.
pub open spec fn arr_cell(a: Seq<Seq<u8>>, i: int) -> Cell {
    if a[i / 9][i % 9] == 0 {
        None
    } else {
        Some(a[i / 9][i % 9])
    }
}

impl Board {
    /// 81 cells, each empty or a digit 1..=9.
    pub open spec fn wf(&self) -> bool {
        grid_wf(self@)
    }

    /// Builds a board from a 9x9 digit array; 0 marks an empty cell.
    /// Rejects entries above 9.
    pub fn from_arr_with_zeros(arr: &[[u8; 9]; 9]) -> (r: Result<Self, SudokuError>)
        ensures
            (r is Ok) <==> (forall|i: int, j: int|
                0 <= i < 9 && 0 <= j < 9 ==> #[trigger] arr@[i]@[j] <= 9),
            r matches Ok(b) ==> b.wf() && forall|i: int|
                0 <= i < 81 ==> #[trigger] b@[i] == arr_cell(arr.deep_view(), i),
    {
        let mut cells: Vec<Cell> = Vec::new();
        let mut i: usize = 0;
        while i < 81
            invariant
                i <= 81,
                cells@.len() == i,
                forall|a: int, b: int|
                    0 <= a && a * 9 + b < i && 0 <= b < 9 ==> #[trigger] arr@[a]@[b] <= 9,
                forall|j: int| 0 <= j < i ==> #[trigger] cells@[j] == arr_cell(arr.deep_view(), j)
                    && cell_valid(cells@[j]),
            decreases 81 - i,
        {
            let v = arr[i / 9][i % 9];
            if v > 9 {
                return Err(SudokuError::Format);
            }
            if v == 0 {
                cells.push(None);
            } else {
                cells.push(Some(v));
            }
            i += 1;
        }
        Ok(Board { cells })
    }

    /// Renders the board as 81 digit characters, '0' for empty cells.
    pub fn to_clean_string(&self) -> (r: String)
        requires
            self.wf(),
        ensures
            r@ == serialize_spec(self@),
    {
        cells_to_string(&self.cells)
    }

    /// Parses 81 digit characters into a board; '0' marks an empty cell.
    /// Fails with a format error on any other length or character.
    pub fn from_string(text: &str) -> (r: Result<Self, SudokuError>)
        ensures
            (r is Ok) <==> text_valid(text@),
            r matches Err(e) ==> e == SudokuError::Format,
            r matches Ok(b) ==> b.wf() && b@ == parse_spec(text@),
    {
        let n = text.unicode_len();
        if n != 81 {
            return Err(SudokuError::Format);
        }
        let mut cells: Vec<Cell> = Vec::new();
        let mut i: usize = 0;
        while i < 81
            invariant
                text@.len() == 81,
                i <= 81,
                cells@.len() == i,
                forall|j: int| 0 <= j < i ==> is_digit_char(#[trigger] text@[j]),
                forall|j: int| 0 <= j < i ==> #[trigger] cells@[j] == parse_cell(text@[j]),
            decreases 81 - i,
        {
            let c = text.get_char(i);
            let v = c as u32;
            if v < 48 || v > 57 {
                assert(!is_digit_char(text@[i as int]));
                return Err(SudokuError::Format);
            }
            if v == 48 {
                cells.push(None);
            } else {
                cells.push(Some((v - 48) as u8));
            }
            i += 1;
        }
        proof {
            assert(cells@ =~= parse_spec(text@));
        }
        Ok(Board { cells })
    }

    /// Reinterprets a candidate's grid as a board.
    pub fn from_solution(board: Solution) -> (r: Self)
        ensures
            r@ == board@,
    {
        Board { cells: board.cells }
    }

    /// The cell at `row`, `col`.
    pub fn get(&self, row: usize, col: usize) -> (c: Cell)
        requires
            self.wf(),
            row < 9,
            col < 9,
        ensures
            c == self@[cell_index(row as int, col as int)],
    {
        self.cells[row * 9 + col]
    }

    /// Scores a candidate against the board: merges the two grids and
    /// counts, over the 9 rows, 9 columns and 9 blocks, every digit 1..=9
    /// absent from that row, column or block. Zero means the merged grid is
    /// a valid solution. Fails with a merge error exactly when the two grids
    /// do not claim each cell exactly once.
    pub fn score_solution(&self, other: &Solution) -> (r: Result<u32, SudokuError>)
        requires
            self.wf(),
            other.wf(),
        ensures
            (r is Ok) <==> complementary(self@, other@),
            r matches Err(e) ==> e == SudokuError::Merge,
            r matches Ok(score) ==> score == score_spec(merge_spec(self@, other@)),
    {
        let combined = match self.combine(other) {
            Ok(c) => c,
            Err(e) => {
                return Err(e);
            },
        };
        let ghost m = combined@;
        proof {
            assert forall|i: int| 0 <= i < 81 implies (#[trigger] m[i]) is Some by {
                assert(self@[i] is Some <==> other@[i] is None);
            }
        }
        let mut score: u32 = 0;
        let mut g: usize = 0;
        while g < 27
            invariant
                combined.wf(),
                m == combined@,
                forall|i: int| 0 <= i < 81 ==> (#[trigger] m[i]) is Some,
                g <= 27,
                score == score_upto(m, g as int),
                score <= 9 * g,
            decreases 27 - g,
        {
            let mut bv = bits_from_elem(9, false);
            let mut k: usize = 0;
            while k < 9
                invariant
                    combined.wf(),
                    m == combined@,
                    forall|i: int| 0 <= i < 81 ==> (#[trigger] m[i]) is Some,
                    g < 27,
                    k <= 9,
                    bitvec_bits(bv).len() == 9,
                    forall|j: int|
                        0 <= j < 9 ==> ((#[trigger] bitvec_bits(bv)[j]) <==> exists|k2: int|
                            0 <= k2 < k && m[group_cell(g as int, k2)] == Some((j + 1) as u8)),
                decreases 9 - k,
            {
                let idx = group_cell_idx(g, k);
                let ghost bits_before = bitvec_bits(bv);
                match combined.cells[idx] {
                    Some(d) => {
                        assert(cell_valid(m[idx as int]));
                        bits_set(&mut bv, (d - 1) as usize, true);
                        proof {
                            assert forall|j: int| 0 <= j < 9 implies ((#[trigger] bitvec_bits(
                                bv,
                            )[j]) <==> exists|k2: int|
                                0 <= k2 < k + 1 && m[group_cell(g as int, k2)] == Some(
                                    (j + 1) as u8,
                                )) by {
                                if j == d - 1 {
                                    assert(m[group_cell(g as int, k as int)] == Some(d));
                                } else {
                                    assert(bitvec_bits(bv)[j] == bits_before[j]);
                                    if exists|k2: int|
                                        0 <= k2 < k + 1 && m[group_cell(g as int, k2)] == Some(
                                            (j + 1) as u8,
                                        ) {
                                        let k2 = choose|k2: int|
                                            0 <= k2 < k + 1 && m[group_cell(g as int, k2)]
                                                == Some((j + 1) as u8);
                                        assert(k2 < k);
                                    }
                                }
                            }
                        }
                    },
                    None => {
                        proof {
                            assert(m[idx as int] is Some);
                            assert(false);
                        }
                    },
                }
                k += 1;
            }
            proof {
                assert forall|j: int| 0 <= j < 9 implies ((#[trigger] bitvec_bits(bv)[j])
                    <==> digit_in_group(m, g as int, j + 1)) by {}
                lemma_count_false_missing(bitvec_bits(bv), m, g as int, 9);
                assert(bitvec_bits(bv).take(9) =~= bitvec_bits(bv));
                lemma_count_false_le_len(bitvec_bits(bv));
                lemma_missing_upto_bounds(m, g as int, 9);
            }
            let z = bits_count_zeros(&bv);
            score = score + (z as u32);
            g += 1;
        }
        Ok(score)
    }

    /// Merges the board's clues with a candidate's fill. Fails with a merge
    /// error exactly when some cell is claimed by both grids or by neither.
    pub fn combine(&self, other: &Solution) -> (r: Result<Board, SudokuError>)
        requires
            self.wf(),
            other.wf(),
        ensures
            (r is Ok) <==> complementary(self@, other@),
            r matches Err(e) ==> e == SudokuError::Merge,
            r matches Ok(c) ==> c.wf() && c@ == merge_spec(self@, other@),
    {
        let mut cells: Vec<Cell> = Vec::new();
        let mut i: usize = 0;
        while i < 81
            invariant
                self.wf(),
                other.wf(),
                i <= 81,
                cells@.len() == i,
                forall|j: int|
                    0 <= j < i ==> ((#[trigger] self@[j]) is Some <==> other@[j] is None),
                forall|j: int| 0 <= j < i ==> #[trigger] cells@[j] == merge_cell(self@[j], other@[j]),
            decreases 81 - i,
        {
            match (self.cells[i], other.cells[i]) {
                (None, None) => {
                    return Err(SudokuError::Merge);
                },
                (None, Some(num)) => {
                    cells.push(Some(num));
                },
                (Some(num), None) => {
                    cells.push(Some(num));
                },
                (Some(_), Some(_)) => {
                    return Err(SudokuError::Merge);
                },
            }
            i += 1;
        }
        proof {
            assert(cells@ =~= merge_spec(self@, other@));
        }
        Ok(Board { cells })
    }
}

impl Solution {
    /// Swaps two distinct, randomly chosen filled cells of the 3x3 block in
    /// block-row `block_x` and block-column `block_y`. When the block holds
    /// fewer than two filled cells there is no move: the grid stays
    /// unchanged and the call reports it.
    pub fn flip_random_spaces_in_block(&mut self, block_x: usize, block_y: usize) -> (r: Result<
        (),
        SudokuError,
    >)
        requires
            old(self).wf(),
            block_x < 3,
            block_y < 3,
        ensures
            final(self).wf(),
            (r is Ok) <==> two_filled_in_block(old(self)@, block_x * 3 + block_y),
            r is Err ==> final(self)@ == old(self)@ && r == Err::<(), SudokuError>(
                SudokuError::NoMove,
            ),
            r is Ok ==> intra_block_swap(old(self)@, final(self)@),
            r is Ok ==> (exists|k1: int, k2: int|
                #![trigger block_cell(block_x * 3 + block_y, k1), block_cell(block_x * 3 + block_y, k2)]
                0 <= k1 < 9 && 0 <= k2 < 9 && k1 != k2 && old(self)@[block_cell(
                    block_x * 3 + block_y,
                    k1,
                )] is Some && old(self)@[block_cell(block_x * 3 + block_y, k2)] is Some
                    && final(self)@ == swap_seq(
                    old(self)@,
                    block_cell(block_x * 3 + block_y, k1),
                    block_cell(block_x * 3 + block_y, k2),
                )),
    {
        let b = block_x * 3 + block_y;
        let ghost bi = b as int;
        let ghost s0 = self@;
        let mut available: Vec<usize> = Vec::new();
        let mut k: usize = 0;
        while k < 9
            invariant
                self.wf(),
                self@ == s0,
                b < 9,
                bi == b as int,
                k <= 9,
                forall|j: int| 0 <= j < available@.len() ==> (#[trigger] available@[j]) < k,
                forall|j: int|
                    0 <= j < available@.len() ==> s0[block_cell(
                        bi,
                        #[trigger] available@[j] as int,
                    )] is Some,
                forall|j1: int, j2: int|
                    0 <= j1 < available@.len() && 0 <= j2 < available@.len() && j1 != j2
                        ==> available@[j1] != available@[j2],
                forall|k2: int|
                    0 <= k2 < k && s0[#[trigger] block_cell(bi, k2)] is Some ==> exists|j: int|
                        0 <= j < available@.len() && available@[j] == k2,
            decreases 9 - k,
        {
            let idx = block_cell_idx(b, k);
            let ghost avail_old = available@;
            if self.cells[idx].is_some() {
                available.push(k);
            }
            proof {
                assert forall|k2: int|
                    0 <= k2 < k + 1 && s0[#[trigger] block_cell(bi, k2)] is Some implies exists|
                    j: int,
                |
                    0 <= j < available@.len() && available@[j] == k2 by {
                    if k2 == k as int {
                        assert(available@[available@.len() - 1] == k2);
                    } else {
                        let j = choose|j: int| 0 <= j < avail_old.len() && avail_old[j] == k2;
                        assert(available@[j] == k2);
                    }
                }
            }
            k += 1;
        }
        let n = available.len();
        if n < 2 {
            proof {
                if two_filled_in_block(s0, bi) {
                    let (k1, k2) = choose|k1: int, k2: int|
                        0 <= k1 < 9 && 0 <= k2 < 9 && k1 != k2 && s0[block_cell(bi, k1)] is Some
                            && s0[block_cell(bi, k2)] is Some;
                    let j1 = choose|j: int|
                        0 <= j < available@.len() && available@[j] == k1;
                    let j2 = choose|j: int|
                        0 <= j < available@.len() && available@[j] == k2;
                    assert(j1 != j2);
                    assert(false);
                }
            }
            return Err(SudokuError::NoMove);
        }
        let ghost avail0 = available@;
        let i1 = random_below(n);
        let s1 = available[i1];
        // Take the first choice out of the pool, so the second differs.
        let last = available[n - 1];
        available.set(i1, last);
        let i2 = random_below(n - 1);
        let s2 = available[i2];
        proof {
            if i2 == i1 {
                assert(s2 == avail0[n - 1]);
            } else {
                assert(s2 == avail0[i2 as int]);
            }
            assert(s1 == avail0[i1 as int]);
            assert(s2 != s1);
            assert(s0[block_cell(bi, s1 as int)] is Some);
            assert(s0[block_cell(bi, s2 as int)] is Some);
        }
        let c1 = block_cell_idx(b, s1);
        let c2 = block_cell_idx(b, s2);
        self.flip_spaces(c1 / 9, c1 % 9, c2 / 9, c2 % 9);
        proof {
            assert(cell_index(c1 as int / 9, c1 as int % 9) == c1 as int);
            assert(cell_index(c2 as int / 9, c2 as int % 9) == c2 as int);
            assert(self@ == swap_seq(s0, c1 as int, c2 as int));
            assert(intra_block_swap(s0, self@));
        }
        Ok(())
    }

    /// Picks a block uniformly at random and attempts one random swap of
    /// two of its filled cells; a block with fewer than two is left as it
    /// is. When every block holds at least two filled cells, some swap
    /// provably happens, whichever block the draw picks.
    pub fn flip_random_spaces(&mut self)
        requires
            old(self).wf(),
        ensures
            final(self).wf(),
            final(self)@ == old(self)@ || intra_block_swap(old(self)@, final(self)@),
            (forall|b: int| 0 <= b < 9 ==> #[trigger] two_filled_in_block(old(self)@, b))
                ==> intra_block_swap(old(self)@, final(self)@),
    {
        let block_x = random_below(3);
        let block_y = random_below(3);
        let moved = self.flip_random_spaces_in_block(block_x, block_y);
        proof {
            if forall|b: int| 0 <= b < 9 ==> #[trigger] two_filled_in_block(old(self)@, b) {
                assert(two_filled_in_block(old(self)@, block_x * 3 + block_y));
                assert(moved is Ok);
            }
        }
        match moved {
            Ok(()) => {},
            Err(_) => {},
        }
    }
}

/// When nine bits record which digits a group holds, the false bits count
/// its missing digits.
proof fn lemma_count_false_missing(bits: Seq<bool>, m: Seq<Cell>, g: int, d: int)
    requires
        bits.len() == 9,
        0 <= d <= 9,
        forall|j: int| 0 <= j < 9 ==> ((#[trigger] bits[j]) <==> digit_in_group(m, g, j + 1)),
    ensures
        count_false(bits.take(d)) == missing_upto(m, g, d),
    decreases d,
{
    if d > 0 {
        lemma_count_false_missing(bits, m, g, d - 1);
        assert(bits.take(d).drop_last() =~= bits.take(d - 1));
        assert(bits.take(d).last() == bits[d - 1]);
    } else {
        assert(bits.take(0).len() == 0);
    }
}

/// Marks the first unused digit as used and returns it.
fn find_next_empty_num(taken: &mut Vec<bool>) -> (r: u8)
    requires
        old(taken)@.len() == 9,
        exists|j: int| 0 <= j < 9 && !old(taken)@[j],
    ensures
        1 <= r <= 9,
        !old(taken)@[r - 1],
        final(taken)@ == old(taken)@.update(r - 1, true),
{
    let ghost t0 = taken@;
    let mut i: usize = 0;
    while i < 9
        invariant
            t0 == old(taken)@,
            taken@ == t0,
            t0.len() == 9,
            i <= 9,
            exists|j: int| 0 <= j < 9 && !t0[j],
            forall|j: int| 0 <= j < i ==> t0[j],
        decreases 9 - i,
    {
        if !taken[i] {
            taken.set(i, true);
            return (i + 1) as u8;
        }
        i += 1;
    }
    proof {
        let j = choose|j: int| 0 <= j < 9 && !t0[j];
        assert(t0[j]);
        assert(false);
    }
    unreached()
}

/// Fills the empty cells of block `b` with the digits its clues are missing,
/// in increasing order, leaving every other cell untouched.
#[verifier::rlimit(100)]
fn fill_block(board: &Board, cells: &mut Vec<Cell>, b: usize) -> (r: Result<(), SudokuError>)
    requires
        board.wf(),
        b < 9,
        old(cells)@.len() == 81,
        forall|i: int| 0 <= i < 81 ==> cell_valid(#[trigger] old(cells)@[i]),
        forall|i: int| 0 <= i < 81 && block_of(i) == b ==> (#[trigger] old(cells)@[i]) is None,
    ensures
        final(cells)@.len() == 81,
        forall|i: int| 0 <= i < 81 ==> cell_valid(#[trigger] final(cells)@[i]),
        forall|i: int|
            0 <= i < 81 && block_of(i) != b ==> #[trigger] final(cells)@[i] == old(cells)@[i],
        (r is Ok) <==> block_clues_distinct(board@, b as int),
        r is Err ==> final(cells)@ == old(cells)@ && r == Err::<(), SudokuError>(
            SudokuError::Conflict,
        ),
        r is Ok ==> block_done(board@, final(cells)@, b as int),
{
    let ghost p = board@;
    let ghost bi = b as int;
    let ghost c0 = old(cells)@;

    // Phase 1: record which digits the block's clues already use.
    let mut taken: Vec<bool> = Vec::new();
    let mut t: usize = 0;
    while t < 9
        invariant
            t <= 9,
            taken@.len() == t,
            count_true(taken@) == 0,
            forall|j: int| 0 <= j < t ==> !(#[trigger] taken@[j]),
        decreases 9 - t,
    {
        proof {
            lemma_count_true_push(taken@, false);
        }
        taken.push(false);
        t += 1;
    }

    let mut k: usize = 0;
    while k < 9
        invariant
            board.wf(),
            p == board@,
            b < 9,
            bi == b as int,
            k <= 9,
            c0 == old(cells)@,
            cells@ == c0,
            c0.len() == 81,
            forall|i: int| 0 <= i < 81 ==> cell_valid(#[trigger] c0[i]),
            forall|i: int| 0 <= i < 81 && block_of(i) == bi ==> (#[trigger] c0[i]) is None,
            taken@.len() == 9,
            count_true(taken@) == somes_upto(p, bi, k as int),
            forall|d: int|
                1 <= d <= 9 ==> ((#[trigger] taken@[d - 1]) <==> exists|k2: int|
                    0 <= k2 < k && p[block_cell(bi, k2)] == Some(d as u8)),
            forall|k1: int, k2: int|
                0 <= k1 < k && 0 <= k2 < k && k1 != k2 && p[#[trigger] block_cell(bi, k1)] is Some
                    ==> p[block_cell(bi, k1)] != p[#[trigger] block_cell(bi, k2)],
        decreases 9 - k,
    {
        let idx = block_cell_idx(b, k);
        match board.cells[idx] {
            Some(num) => {
                assert(cell_valid(p[idx as int]));
                if taken[(num - 1) as usize] {
                    proof {
                        let k2 = choose|k2: int|
                            0 <= k2 < k && p[block_cell(bi, k2)] == Some(num);
                        assert(p[block_cell(bi, k2)] is Some);
                        assert(p[block_cell(bi, k2)] == p[block_cell(bi, k as int)]);
                        assert(!block_clues_distinct(p, bi));
                    }
                    return Err(SudokuError::Conflict);
                }
                proof {
                    lemma_count_true_update(taken@, num - 1);
                }
                taken.set((num - 1) as usize, true);
            },
            None => {},
        }
        k += 1;
    }

    // Phase 2: hand the unused digits, in order, to the block's empty cells.
    let ghost fixed9 = somes_upto(p, bi, 9);
    let mut k: usize = 0;
    while k < 9
        invariant
            board.wf(),
            p == board@,
            b < 9,
            bi == b as int,
            k <= 9,
            c0 == old(cells)@,
            c0.len() == 81,
            forall|i: int| 0 <= i < 81 && block_of(i) == bi ==> (#[trigger] c0[i]) is None,
            taken@.len() == 9,
            cells@.len() == 81,
            fixed9 == somes_upto(p, bi, 9),
            block_clues_distinct(p, bi),
            forall|i: int| 0 <= i < 81 ==> cell_valid(#[trigger] cells@[i]),
            forall|i: int| 0 <= i < 81 && block_of(i) != bi ==> #[trigger] cells@[i] == c0[i],
            forall|k2: int| k <= k2 < 9 ==> (cells@[#[trigger] block_cell(bi, k2)]) is None,
            forall|k2: int|
                0 <= k2 < k ==> ((p[#[trigger] block_cell(bi, k2)] is Some) <==> (cells@[block_cell(
                    bi,
                    k2,
                )] is None)),
            count_true(taken@) == fixed9 + empties_upto(p, bi, k as int),
            forall|d: int|
                1 <= d <= 9 ==> ((#[trigger] taken@[d - 1]) <==> (fixed_in_block(p, bi, d)
                    || assigned_before(p, cells@, bi, k as int, d))),
            forall|d: int|
                1 <= d <= 9 ==> !(#[trigger] fixed_in_block(p, bi, d) && assigned_before(
                    p,
                    cells@,
                    bi,
                    k as int,
                    d,
                )),
            forall|k1: int, k2: int|
                0 <= k1 < k && 0 <= k2 < k && k1 != k2 && p[#[trigger] block_cell(bi, k1)] is None
                    && p[#[trigger] block_cell(bi, k2)] is None ==> cells@[block_cell(bi, k1)]
                    != cells@[block_cell(bi, k2)],
        decreases 9 - k,
    {
        let idx = block_cell_idx(b, k);
        match board.cells[idx] {
            Some(_) => {},
            None => {
                proof {
                    lemma_somes_plus_empties(p, bi, 9);
                    lemma_empties_monotone(p, bi, k as int + 1, 9);
                    assert(empties_upto(p, bi, k as int + 1) == empties_upto(p, bi, k as int)
                        + 1);
                    assert(count_true(taken@) < 9);
                    lemma_count_lt_exists_false(taken@);
                }
                let ghost taken_before = taken@;
                let ghost cells_before = cells@;
                let num = find_next_empty_num(&mut taken);
                proof {
                    lemma_count_true_update(taken_before, num - 1);
                }
                cells.set(idx, Some(num));
                proof {
                    lemma_assign_digit(
                        p,
                        cells_before,
                        cells@,
                        taken_before,
                        taken@,
                        bi,
                        k as int,
                        num,
                    );
                }
            },
        }
        k += 1;
    }

    proof {
        lemma_somes_plus_empties(p, bi, 9);
        lemma_count_full_all_true(taken@);
        assert forall|d: int| 1 <= d <= 9 implies #[trigger] block_has_exactly(
            merge_spec(p, cells@),
            bi,
            d,
        ) by {
            let m = merge_spec(p, cells@);
            assert(taken@[d - 1]);
            if fixed_in_block(p, bi, d) {
                let kf = choose|k2: int| 0 <= k2 < 9 && p[block_cell(bi, k2)] == Some(d as u8);
                lemma_block_cell_bounds(bi, kf);
                assert(m[block_cell(bi, kf)] == Some(d as u8));
            } else {
                assert(assigned_before(p, cells@, bi, 9, d));
                let ka = choose|k2: int|
                    0 <= k2 < 9 && p[block_cell(bi, k2)] is None && cells@[block_cell(bi, k2)]
                        == Some(d as u8);
                lemma_block_cell_bounds(bi, ka);
                assert(m[block_cell(bi, ka)] == Some(d as u8));
            }
            assert forall|k1: int, k2: int|
                0 <= k1 < 9 && 0 <= k2 < 9 && m[block_cell(bi, k1)] == Some(d as u8) && m[
                block_cell(bi, k2)] == Some(d as u8) implies k1 == k2 by {
                lemma_block_cell_bounds(bi, k1);
                lemma_block_cell_bounds(bi, k2);
                if p[block_cell(bi, k1)] is Some && p[block_cell(bi, k2)] is Some {
                    assert(p[block_cell(bi, k1)] == Some(d as u8));
                    assert(p[block_cell(bi, k2)] == Some(d as u8));
                } else if p[block_cell(bi, k1)] is Some && !(p[block_cell(bi, k2)] is Some) {
                    assert(fixed_in_block(p, bi, d));
                    assert(cells@[block_cell(bi, k2)] == Some(d as u8));
                    assert(assigned_before(p, cells@, bi, 9, d));
                    assert(false);
                } else if !(p[block_cell(bi, k1)] is Some) && p[block_cell(bi, k2)] is Some {
                    assert(fixed_in_block(p, bi, d));
                    assert(cells@[block_cell(bi, k1)] == Some(d as u8));
                    assert(assigned_before(p, cells@, bi, 9, d));
                    assert(false);
                } else {
                    assert(cells@[block_cell(bi, k1)] == Some(d as u8));
                    assert(cells@[block_cell(bi, k2)] == Some(d as u8));
                }
            }
        }
    }
    Ok(())
}

} // verus!
