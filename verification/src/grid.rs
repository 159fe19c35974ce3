use vstd::prelude::*;
use vstd::string::StringExecFns;

verus! {

/// One cell of a 9x9 grid: empty (`None`) or a digit (`Some(d)` with `1 <= d <= 9`).
pub type Cell = Option<u8>;

/// A present digit is always in 1..=9.
pub open spec fn cell_valid(c: Cell) -> bool {
    c matches Some(d) ==> 1 <= d <= 9
}

/// A well-formed grid: 81 cells, row-major, every digit in range.
pub open spec fn grid_wf(s: Seq<Cell>) -> bool {
    &&& s.len() == 81
    &&& forall|i: int| 0 <= i < 81 ==> cell_valid(#[trigger] s[i])
}

/// Flat index of row `r`, column `c`.
pub open spec fn cell_index(r: int, c: int) -> int {
    r * 9 + c
}

/// Flat index of slot `k` (0..9, row-major within the block) of block `b`
/// (0..9, row-major over the nine 3x3 blocks).
pub open spec fn block_cell(b: int, k: int) -> int {
    ((b / 3) * 3 + k / 3) * 9 + (b % 3) * 3 + k % 3
}

/// The block that flat index `i` belongs to.
pub open spec fn block_of(i: int) -> int {
    (i / 27) * 3 + (i % 9) / 3
}

/// The slot within its block that flat index `i` occupies.
pub open spec fn slot_of(i: int) -> int {
    ((i / 9) % 3) * 3 + i % 3
}

pub proof fn lemma_block_cell_bounds(b: int, k: int)
    requires
        0 <= b < 9,
        0 <= k < 9,
    ensures
        0 <= block_cell(b, k) < 81,
        block_of(block_cell(b, k)) == b,
        slot_of(block_cell(b, k)) == k,
{
}

pub proof fn lemma_block_cell_inverse(i: int)
    requires
        0 <= i < 81,
    ensures
        0 <= block_of(i) < 9,
        0 <= slot_of(i) < 9,
        block_cell(block_of(i), slot_of(i)) == i,
{
}

/// The puzzle claims exactly the cells that the candidate leaves empty.
pub open spec fn complementary(p: Seq<Cell>, s: Seq<Cell>) -> bool {
    forall|i: int| 0 <= i < 81 ==> ((#[trigger] p[i]) is Some <==> s[i] is None)
}

/// A merged cell: the puzzle's digit where it has one, else the candidate's.
pub open spec fn merge_cell(pc: Cell, sc: Cell) -> Cell {
    if pc is Some {
        pc
    } else {
        sc
    }
}

/// The 81-cell union of a puzzle and a candidate.
pub open spec fn merge_spec(p: Seq<Cell>, s: Seq<Cell>) -> Seq<Cell> {
    Seq::new(81, |i: int| merge_cell(p[i], s[i]))
}

/// Digit `d` occurs in exactly one cell of block `b` of grid `m`.
pub open spec fn block_has_exactly(m: Seq<Cell>, b: int, d: int) -> bool {
    &&& exists|k: int| 0 <= k < 9 && m[block_cell(b, k)] == Some(d as u8)
    &&& forall|k1: int, k2: int|
        0 <= k1 < 9 && 0 <= k2 < 9 && m[block_cell(b, k1)] == Some(d as u8)
            && m[block_cell(b, k2)] == Some(d as u8) ==> k1 == k2
}

/// Every block of grid `m` holds each digit 1..=9 exactly once.
pub open spec fn blocks_valid(m: Seq<Cell>) -> bool {
    forall|b: int, d: int| 0 <= b < 9 && 1 <= d <= 9 ==> #[trigger] block_has_exactly(m, b, d)
}

/// The grid after exchanging the contents of cells `a` and `b`.
pub open spec fn swap_seq(s: Seq<Cell>, a: int, b: int) -> Seq<Cell> {
    s.update(a, s[b]).update(b, s[a])
}

/// Exchanging the same two cells twice restores the grid exactly.
pub proof fn lemma_swap_involution(s: Seq<Cell>, a: int, b: int)
    requires
        0 <= a < s.len(),
        0 <= b < s.len(),
    ensures
        swap_seq(swap_seq(s, a, b), a, b) == s,
{
    assert(swap_seq(swap_seq(s, a, b), a, b) =~= s);
}

/// An ASCII decimal digit.
pub open spec fn is_digit_char(c: char) -> bool {
    48 <= c as int <= 57
}

/// The numeric value of an ASCII digit character.
pub open spec fn digit_val(c: char) -> int {
    c as int - 48
}

/// The ASCII digit character for `d` (0..=9).
pub open spec fn char_of_digit(d: int) -> char {
    (48 + d) as char
}

/// Well-formed puzzle text: exactly 81 ASCII digits, row-major, '0' = empty.
pub open spec fn text_valid(t: Seq<char>) -> bool {
    &&& t.len() == 81
    &&& forall|i: int| 0 <= i < 81 ==> is_digit_char(#[trigger] t[i])
}

/// The cell that one text character denotes.
pub open spec fn parse_cell(c: char) -> Cell {
    if digit_val(c) == 0 {
        None
    } else {
        Some(digit_val(c) as u8)
    }
}

/// The grid that well-formed text denotes.
pub open spec fn parse_spec(t: Seq<char>) -> Seq<Cell> {
    Seq::new(81, |i: int| parse_cell(t[i]))
}

/// The text character for one cell: its digit, or '0' when empty.
pub open spec fn cell_char(c: Cell) -> char {
    char_of_digit(
        match c {
            None => 0,
            Some(d) => d as int,
        },
    )
}

/// The 81-character text for a grid.
pub open spec fn serialize_spec(s: Seq<Cell>) -> Seq<char> {
    Seq::new(81, |i: int| cell_char(s[i]))
}

/// Serializing a parsed grid gives back the text it was parsed from.
pub proof fn lemma_round_trip(t: Seq<char>)
    requires
        text_valid(t),
    ensures
        serialize_spec(parse_spec(t)) == t,
{
    assert forall|i: int| 0 <= i < 81 implies serialize_spec(parse_spec(t))[i] == t[i] by {
        assert(is_digit_char(t[i]));
    }
    assert(serialize_spec(parse_spec(t)) =~= t);
}

/// Flat index of slot `k` (0..9) of scoring group `g`: groups 0..9 are the
/// rows, 9..18 the columns, 18..27 the blocks.
pub open spec fn group_cell(g: int, k: int) -> int {
    if g < 9 {
        cell_index(g, k)
    } else if g < 18 {
        cell_index(k, g - 9)
    } else {
        block_cell(g - 18, k)
    }
}

/// Digit `d` occurs somewhere in group `g` of grid `m`.
pub open spec fn digit_in_group(m: Seq<Cell>, g: int, d: int) -> bool {
    exists|k: int| 0 <= k < 9 && m[group_cell(g, k)] == Some(d as u8)
}

/// How many of the digits 1..=d are absent from group `g` of grid `m`.
pub open spec fn missing_upto(m: Seq<Cell>, g: int, d: int) -> int
    decreases d,
{
    if d <= 0 {
        0
    } else {
        missing_upto(m, g, d - 1) + if digit_in_group(m, g, d) {
            0int
        } else {
            1int
        }
    }
}

/// How many of the digits 1..=9 are absent from group `g` of grid `m`.
pub open spec fn group_missing(m: Seq<Cell>, g: int) -> int {
    missing_upto(m, g, 9)
}

/// The summed conflict count of groups 0..g.
pub open spec fn score_upto(m: Seq<Cell>, g: int) -> int
    decreases g,
{
    if g <= 0 {
        0
    } else {
        score_upto(m, g - 1) + group_missing(m, g - 1)
    }
}

/// The conflict count of a merged grid: for each of the 9 rows, 9 columns and
/// 9 blocks, the number of digits 1..=9 absent from it.
pub open spec fn score_spec(m: Seq<Cell>) -> int {
    score_upto(m, 27)
}

/// At most one digit can be missing per digit counted.
pub proof fn lemma_missing_upto_bounds(m: Seq<Cell>, g: int, d: int)
    requires
        0 <= d <= 9,
    ensures
        0 <= missing_upto(m, g, d) <= d,
    decreases d,
{
    if d > 0 {
        lemma_missing_upto_bounds(m, g, d - 1);
    }
}

/// Every row, column and block of grid `m` holds every digit 1..=9.
pub open spec fn all_groups_complete(m: Seq<Cell>) -> bool {
    forall|g: int, d: int| 0 <= g < 27 && 1 <= d <= 9 ==> #[trigger] digit_in_group(m, g, d)
}

/// Counting zero missing digits up to `d` means each of 1..=d is present.
proof fn lemma_missing_upto_zero_iff(m: Seq<Cell>, g: int, d: int)
    requires
        0 <= d <= 9,
    ensures
        (missing_upto(m, g, d) == 0) <==> (forall|d2: int|
            1 <= d2 <= d ==> #[trigger] digit_in_group(m, g, d2)),
    decreases d,
{
    if d > 0 {
        lemma_missing_upto_zero_iff(m, g, d - 1);
        lemma_missing_upto_bounds(m, g, d - 1);
    }
}

proof fn lemma_score_upto_zero_iff(m: Seq<Cell>, g: int)
    requires
        0 <= g <= 27,
    ensures
        score_upto(m, g) >= 0,
        (score_upto(m, g) == 0) <==> (forall|g2: int, d: int|
            0 <= g2 < g && 1 <= d <= 9 ==> #[trigger] digit_in_group(m, g2, d)),
    decreases g,
{
    if g > 0 {
        lemma_score_upto_zero_iff(m, g - 1);
        lemma_missing_upto_bounds(m, g - 1, 9);
        lemma_missing_upto_zero_iff(m, g - 1, 9);
    }
}

/// The conflict count is zero exactly when every row, column and block of
/// the merged grid holds every digit 1..=9: a fully valid solution.
pub proof fn lemma_score_zero_iff_complete(m: Seq<Cell>)
    ensures
        (score_spec(m) == 0) <==> all_groups_complete(m),
{
    lemma_score_upto_zero_iff(m, 27);
}

/// Digit `d` occurs among the clues of block `b` of puzzle `p`.
pub open spec fn fixed_in_block(p: Seq<Cell>, b: int, d: int) -> bool {
    exists|k: int| 0 <= k < 9 && p[block_cell(b, k)] == Some(d as u8)
}

/// No digit repeats among the clues of block `b` of puzzle `p`.
pub open spec fn block_clues_distinct(p: Seq<Cell>, b: int) -> bool {
    forall|k1: int, k2: int|
        0 <= k1 < 9 && 0 <= k2 < 9 && k1 != k2 && p[block_cell(b, k1)] is Some ==> p[block_cell(
            b,
            k1,
        )] != p[block_cell(b, k2)]
}

/// No block of puzzle `p` repeats a digit among its clues.
pub open spec fn clues_consistent(p: Seq<Cell>) -> bool {
    forall|b: int| 0 <= b < 9 ==> #[trigger] block_clues_distinct(p, b)
}

/// Within block `b`, the candidate fills exactly the puzzle's empty cells and
/// the merged block holds each digit 1..=9 exactly once.
pub open spec fn block_done(p: Seq<Cell>, s: Seq<Cell>, b: int) -> bool {
    &&& forall|k: int|
        0 <= k < 9 ==> ((p[#[trigger] block_cell(b, k)] is Some) <==> (s[block_cell(b, k)]
            is None))
    &&& forall|d: int| 1 <= d <= 9 ==> #[trigger] block_has_exactly(merge_spec(p, s), b, d)
}

/// A grid whose every block is done is a complementary, block-valid fill.
pub proof fn lemma_all_blocks_done(p: Seq<Cell>, s: Seq<Cell>)
    requires
        p.len() == 81,
        s.len() == 81,
        forall|b: int| 0 <= b < 9 ==> #[trigger] block_done(p, s, b),
    ensures
        complementary(p, s),
        blocks_valid(merge_spec(p, s)),
{
    assert forall|i: int| 0 <= i < 81 implies ((#[trigger] p[i]) is Some <==> s[i] is None) by {
        lemma_block_cell_inverse(i);
        assert(block_done(p, s, block_of(i)));
        assert(p[block_cell(block_of(i), slot_of(i))] is Some <==> s[block_cell(
            block_of(i),
            slot_of(i),
        )] is None);
    }
    assert forall|b: int, d: int| 0 <= b < 9 && 1 <= d <= 9 implies #[trigger] block_has_exactly(
        merge_spec(p, s),
        b,
        d,
    ) by {
        assert(block_done(p, s, b));
    }
}

/// How many entries of `s` are true.
pub open spec fn count_true(s: Seq<bool>) -> int
    decreases s.len(),
{
    if s.len() == 0 {
        0
    } else {
        count_true(s.drop_last()) + if s.last() {
            1int
        } else {
            0int
        }
    }
}

pub proof fn lemma_count_true_le_len(s: Seq<bool>)
    ensures
        0 <= count_true(s) <= s.len(),
    decreases s.len(),
{
    if s.len() > 0 {
        lemma_count_true_le_len(s.drop_last());
    }
}

/// Setting a false entry to true raises the count by one.
pub proof fn lemma_count_true_update(s: Seq<bool>, j: int)
    requires
        0 <= j < s.len(),
        !s[j],
    ensures
        count_true(s.update(j, true)) == count_true(s) + 1,
    decreases s.len(),
{
    let t = s.update(j, true);
    if j == s.len() - 1 {
        assert(t.drop_last() =~= s.drop_last());
    } else {
        assert(t.drop_last() =~= s.drop_last().update(j, true));
        lemma_count_true_update(s.drop_last(), j);
    }
}

/// When the count falls short of the length, some entry is false.
pub proof fn lemma_count_lt_exists_false(s: Seq<bool>)
    requires
        count_true(s) < s.len(),
    ensures
        exists|j: int| 0 <= j < s.len() && !s[j],
    decreases s.len(),
{
    if s.len() > 0 {
        if s.last() {
            lemma_count_lt_exists_false(s.drop_last());
            let j = choose|j: int| 0 <= j < s.len() - 1 && !s.drop_last()[j];
            assert(!s[j]);
        } else {
            assert(!s[s.len() - 1]);
        }
    }
}

/// When the count reaches the length, every entry is true.
pub proof fn lemma_count_full_all_true(s: Seq<bool>)
    requires
        count_true(s) == s.len(),
    ensures
        forall|j: int| 0 <= j < s.len() ==> s[j],
    decreases s.len(),
{
    if s.len() > 0 {
        lemma_count_true_le_len(s.drop_last());
        assert(s.last());
        lemma_count_full_all_true(s.drop_last());
        assert forall|j: int| 0 <= j < s.len() implies s[j] by {
            if j < s.len() - 1 {
                assert(s.drop_last()[j]);
            }
        }
    }
}

/// How many clue cells stand among the first `k` slots of block `b`.
pub open spec fn somes_upto(p: Seq<Cell>, b: int, k: int) -> int
    decreases k,
{
    if k <= 0 {
        0
    } else {
        somes_upto(p, b, k - 1) + if p[block_cell(b, k - 1)] is Some {
            1int
        } else {
            0int
        }
    }
}

/// How many empty cells stand among the first `k` slots of block `b`.
pub open spec fn empties_upto(p: Seq<Cell>, b: int, k: int) -> int
    decreases k,
{
    if k <= 0 {
        0
    } else {
        empties_upto(p, b, k - 1) + if p[block_cell(b, k - 1)] is None {
            1int
        } else {
            0int
        }
    }
}

/// Clue cells and empty cells together account for every slot.
pub proof fn lemma_somes_plus_empties(p: Seq<Cell>, b: int, k: int)
    requires
        0 <= k,
    ensures
        somes_upto(p, b, k) + empties_upto(p, b, k) == k,
    decreases k,
{
    if k > 0 {
        lemma_somes_plus_empties(p, b, k - 1);
    }
}

/// Counting empties over more slots never counts fewer.
pub proof fn lemma_empties_monotone(p: Seq<Cell>, b: int, k1: int, k2: int)
    requires
        0 <= k1 <= k2,
    ensures
        empties_upto(p, b, k1) <= empties_upto(p, b, k2),
    decreases k2 - k1,
{
    if k1 < k2 {
        lemma_empties_monotone(p, b, k1, k2 - 1);
    }
}

/// Cells `a` and `b` lie in one block and are candidate-owned: the puzzle
/// fixes neither.
pub open spec fn intra_block_owned_pair(p: Seq<Cell>, a: int, b: int) -> bool {
    &&& 0 <= a < 81
    &&& 0 <= b < 81
    &&& block_of(a) == block_of(b)
    &&& p[a] is None
    &&& p[b] is None
}

/// `s2` arises from `s1` by one swap of two distinct filled cells of one
/// block.
pub open spec fn intra_block_swap(s1: Seq<Cell>, s2: Seq<Cell>) -> bool {
    exists|b: int, k1: int, k2: int|
        0 <= b < 9 && 0 <= k1 < 9 && 0 <= k2 < 9 && k1 != k2 && s1[block_cell(b, k1)] is Some
            && s1[block_cell(b, k2)] is Some && s2 == swap_seq(
            s1,
            block_cell(b, k1),
            block_cell(b, k2),
        )
}

/// Block `b` of grid `s` holds at least two filled cells.
pub open spec fn two_filled_in_block(s: Seq<Cell>, b: int) -> bool {
    exists|k1: int, k2: int|
        0 <= k1 < 9 && 0 <= k2 < 9 && k1 != k2 && s[block_cell(b, k1)] is Some && s[block_cell(
            b,
            k2,
        )] is Some
}

/// The grid after a list of swaps, applied first to last.
pub open spec fn apply_swaps(s: Seq<Cell>, swaps: Seq<(int, int)>) -> Seq<Cell>
    decreases swaps.len(),
{
    if swaps.len() == 0 {
        s
    } else {
        apply_swaps(swap_seq(s, swaps[0].0, swaps[0].1), swaps.subrange(1, swaps.len() as int))
    }
}

/// One swap of two candidate-owned cells of one block keeps the candidate
/// complementary to the puzzle and keeps every merged block complete.
pub proof fn lemma_swap_preserves_block_validity(p: Seq<Cell>, s: Seq<Cell>, a: int, b: int)
    requires
        p.len() == 81,
        s.len() == 81,
        complementary(p, s),
        blocks_valid(merge_spec(p, s)),
        intra_block_owned_pair(p, a, b),
    ensures
        complementary(p, swap_seq(s, a, b)),
        blocks_valid(merge_spec(p, swap_seq(s, a, b))),
{
    let s2 = swap_seq(s, a, b);
    let m = merge_spec(p, s);
    let m2 = merge_spec(p, s2);
    let b0 = block_of(a);
    lemma_block_cell_inverse(a);
    lemma_block_cell_inverse(b);
    assert(s[a] is Some);
    assert(s[b] is Some);
    assert(complementary(p, s2));
    assert(m2[a] == m[b]);
    assert(m2[b] == m[a]);
    assert forall|i: int| 0 <= i < 81 && i != a && i != b implies m2[i] == m[i] by {}
    assert forall|bb: int, d: int| 0 <= bb < 9 && 1 <= d <= 9 implies #[trigger] block_has_exactly(
        m2,
        bb,
        d,
    ) by {
        assert(block_has_exactly(m, bb, d));
        let k = choose|k: int| 0 <= k < 9 && m[block_cell(bb, k)] == Some(d as u8);
        lemma_block_cell_bounds(bb, k);
        // A witness in the new grid: the old one, rerouted through the swap.
        if block_cell(bb, k) == a {
            assert(bb == b0 && m2[b] == Some(d as u8));
            assert(m2[block_cell(b0, slot_of(b))] == Some(d as u8));
        } else if block_cell(bb, k) == b {
            assert(bb == block_of(b) && m2[a] == Some(d as u8));
            assert(m2[block_cell(b0, slot_of(a))] == Some(d as u8));
        } else {
            assert(m2[block_cell(bb, k)] == Some(d as u8));
        }
        assert(exists|k2: int| 0 <= k2 < 9 && m2[block_cell(bb, k2)] == Some(d as u8));
        assert forall|k1: int, k2: int|
            0 <= k1 < 9 && 0 <= k2 < 9 && m2[block_cell(bb, k1)] == Some(d as u8) && m2[block_cell(
                bb,
                k2,
            )] == Some(d as u8) implies k1 == k2 by {
            lemma_block_cell_bounds(bb, k1);
            lemma_block_cell_bounds(bb, k2);
            let c1 = block_cell(bb, k1);
            let c2 = block_cell(bb, k2);
            let r1 = if c1 == a {
                b
            } else if c1 == b {
                a
            } else {
                c1
            };
            let r2 = if c2 == a {
                b
            } else if c2 == b {
                a
            } else {
                c2
            };
            assert(m[r1] == Some(d as u8));
            assert(m[r2] == Some(d as u8));
            lemma_block_cell_inverse(r1);
            lemma_block_cell_inverse(r2);
            assert(block_of(r1) == bb && block_of(r2) == bb);
            assert(m[block_cell(bb, slot_of(r1))] == Some(d as u8));
            assert(m[block_cell(bb, slot_of(r2))] == Some(d as u8));
            assert(slot_of(r1) == slot_of(r2));
            assert(r1 == r2);
        }
    }
}

/// Any sequence of swaps of candidate-owned cells within single blocks keeps
/// the candidate complementary to the puzzle and keeps every block of the
/// merged grid holding each digit 1..=9 exactly once.
pub proof fn lemma_swaps_preserve_block_validity(p: Seq<Cell>, s: Seq<Cell>, swaps: Seq<(int, int)>)
    requires
        p.len() == 81,
        s.len() == 81,
        complementary(p, s),
        blocks_valid(merge_spec(p, s)),
        forall|j: int|
            0 <= j < swaps.len() ==> intra_block_owned_pair(
                p,
                (#[trigger] swaps[j]).0,
                swaps[j].1,
            ),
    ensures
        apply_swaps(s, swaps).len() == 81,
        complementary(p, apply_swaps(s, swaps)),
        blocks_valid(merge_spec(p, apply_swaps(s, swaps))),
    decreases swaps.len(),
{
    if swaps.len() > 0 {
        let s1 = swap_seq(s, swaps[0].0, swaps[0].1);
        lemma_swap_preserves_block_validity(p, s, swaps[0].0, swaps[0].1);
        let rest = swaps.subrange(1, swaps.len() as int);
        assert forall|j: int| 0 <= j < rest.len() implies intra_block_owned_pair(
            p,
            (#[trigger] rest[j]).0,
            rest[j].1,
        ) by {
            assert(rest[j] == swaps[j + 1]);
        }
        lemma_swaps_preserve_block_validity(p, s1, rest);
    }
}

/// An intra-block swap of filled candidate cells preserves complementarity
/// and merged-block completeness.
pub proof fn lemma_intra_block_swap_preserves(p: Seq<Cell>, s1: Seq<Cell>, s2: Seq<Cell>)
    requires
        p.len() == 81,
        s1.len() == 81,
        complementary(p, s1),
        blocks_valid(merge_spec(p, s1)),
        intra_block_swap(s1, s2),
    ensures
        s2.len() == 81,
        complementary(p, s2),
        blocks_valid(merge_spec(p, s2)),
{
    let (b, k1, k2) = choose|b: int, k1: int, k2: int|
        0 <= b < 9 && 0 <= k1 < 9 && 0 <= k2 < 9 && k1 != k2 && s1[block_cell(b, k1)] is Some
            && s1[block_cell(b, k2)] is Some && s2 == swap_seq(
            s1,
            block_cell(b, k1),
            block_cell(b, k2),
        );
    lemma_block_cell_bounds(b, k1);
    lemma_block_cell_bounds(b, k2);
    lemma_swap_preserves_block_validity(p, s1, block_cell(b, k1), block_cell(b, k2));
}

/// Digit `d` was assigned to one of the first `k` puzzle-empty slots of
/// block `b` of candidate `s`.
pub open spec fn assigned_before(p: Seq<Cell>, s: Seq<Cell>, b: int, k: int, d: int) -> bool {
    exists|k2: int|
        0 <= k2 < k && p[block_cell(b, k2)] is None && s[block_cell(b, k2)] == Some(d as u8)
}

/// Handing unused digit `num` to the empty slot `k` of block `b` keeps every
/// invariant of the block-completing fill.
#[verifier::rlimit(60)]
pub proof fn lemma_assign_digit(
    p: Seq<Cell>,
    c1: Seq<Cell>,
    c2: Seq<Cell>,
    t1: Seq<bool>,
    t2: Seq<bool>,
    b: int,
    k: int,
    num: u8,
)
    requires
        0 <= b < 9,
        0 <= k < 9,
        p.len() == 81,
        c1.len() == 81,
        forall|i: int| 0 <= i < 81 ==> cell_valid(#[trigger] c1[i]),
        1 <= num <= 9,
        p[block_cell(b, k)] is None,
        t1.len() == 9,
        !t1[num - 1],
        t2 == t1.update(num - 1, true),
        c2 == c1.update(block_cell(b, k), Some(num)),
        forall|k2: int| k <= k2 < 9 ==> c1[#[trigger] block_cell(b, k2)] is None,
        forall|k2: int|
            0 <= k2 < k ==> ((p[#[trigger] block_cell(b, k2)] is Some) <==> (c1[block_cell(b, k2)]
                is None)),
        forall|d: int|
            1 <= d <= 9 ==> ((#[trigger] t1[d - 1]) <==> (fixed_in_block(p, b, d)
                || assigned_before(p, c1, b, k, d))),
        forall|d: int|
            1 <= d <= 9 ==> !(#[trigger] fixed_in_block(p, b, d) && assigned_before(
                p,
                c1,
                b,
                k,
                d,
            )),
        forall|ka: int, kb: int|
            0 <= ka < k && 0 <= kb < k && ka != kb && p[#[trigger] block_cell(b, ka)] is None && p[
                #[trigger] block_cell(b, kb)] is None ==> c1[block_cell(b, ka)] != c1[block_cell(
                b,
                kb,
            )],
    ensures
        c2.len() == 81,
        forall|i: int| 0 <= i < 81 ==> cell_valid(#[trigger] c2[i]),
        forall|i: int| 0 <= i < 81 && block_of(i) != b ==> #[trigger] c2[i] == c1[i],
        forall|k2: int| k + 1 <= k2 < 9 ==> c2[#[trigger] block_cell(b, k2)] is None,
        forall|k2: int|
            0 <= k2 < k + 1 ==> ((p[#[trigger] block_cell(b, k2)] is Some) <==> (c2[block_cell(
                b,
                k2,
            )] is None)),
        forall|d: int|
            1 <= d <= 9 ==> ((#[trigger] t2[d - 1]) <==> (fixed_in_block(p, b, d)
                || assigned_before(p, c2, b, k + 1, d))),
        forall|d: int|
            1 <= d <= 9 ==> !(#[trigger] fixed_in_block(p, b, d) && assigned_before(
                p,
                c2,
                b,
                k + 1,
                d,
            )),
        forall|ka: int, kb: int|
            0 <= ka < k + 1 && 0 <= kb < k + 1 && ka != kb && p[#[trigger] block_cell(b, ka)]
                is None && p[#[trigger] block_cell(b, kb)] is None ==> c2[block_cell(b, ka)]
                != c2[block_cell(b, kb)],
{
    let c = block_cell(b, k);
    lemma_block_cell_bounds(b, k);
    assert forall|k2: int| 0 <= k2 < 9 && k2 != k implies block_cell(b, k2) != c by {
        lemma_block_cell_bounds(b, k2);
    }
    assert forall|i: int| 0 <= i < 81 && block_of(i) != b implies #[trigger] c2[i] == c1[i] by {}
    // The new digit was neither fixed nor assigned before.
    assert(!fixed_in_block(p, b, num as int));
    assert(!assigned_before(p, c1, b, k, num as int));
    // Characterization of `taken` after the assignment.
    assert forall|d: int| 1 <= d <= 9 implies ((#[trigger] t2[d - 1]) <==> (fixed_in_block(
        p,
        b,
        d,
    ) || assigned_before(p, c2, b, k + 1, d))) by {
        if d == num {
            assert(c2[c] == Some(num));
            assert(assigned_before(p, c2, b, k + 1, d));
        } else {
            assert(t2[d - 1] == t1[d - 1]);
            if assigned_before(p, c2, b, k + 1, d) {
                let k2 = choose|k2: int|
                    0 <= k2 < k + 1 && p[block_cell(b, k2)] is None && c2[block_cell(b, k2)]
                        == Some(d as u8);
                assert(k2 != k);
                assert(c1[block_cell(b, k2)] == Some(d as u8));
                assert(assigned_before(p, c1, b, k, d));
            }
            if assigned_before(p, c1, b, k, d) {
                let k2 = choose|k2: int|
                    0 <= k2 < k && p[block_cell(b, k2)] is None && c1[block_cell(b, k2)] == Some(
                        d as u8,
                    );
                assert(c2[block_cell(b, k2)] == Some(d as u8));
                assert(assigned_before(p, c2, b, k + 1, d));
            }
        }
    }
    // No digit is both fixed and assigned.
    assert forall|d: int| 1 <= d <= 9 implies !(#[trigger] fixed_in_block(p, b, d)
        && assigned_before(p, c2, b, k + 1, d)) by {
        if fixed_in_block(p, b, d) && assigned_before(p, c2, b, k + 1, d) {
            let k2 = choose|k2: int|
                0 <= k2 < k + 1 && p[block_cell(b, k2)] is None && c2[block_cell(b, k2)] == Some(
                    d as u8,
                );
            if k2 == k {
                assert(d == num);
            } else {
                assert(c1[block_cell(b, k2)] == Some(d as u8));
                assert(assigned_before(p, c1, b, k, d));
            }
        }
    }
    // Assigned digits stay pairwise distinct.
    assert forall|ka: int, kb: int|
        0 <= ka < k + 1 && 0 <= kb < k + 1 && ka != kb && p[#[trigger] block_cell(b, ka)] is None
            && p[#[trigger] block_cell(b, kb)] is None implies c2[block_cell(b, ka)] != c2[
        block_cell(b, kb)] by {
        if ka == k || kb == k {
            let ko = if ka == k {
                kb
            } else {
                ka
            };
            assert(c2[block_cell(b, ko)] == c1[block_cell(b, ko)]);
            assert(c1[block_cell(b, ko)] is Some);
            let dv = c1[block_cell(b, ko)]->0;
            lemma_block_cell_bounds(b, ko);
            assert(cell_valid(c1[block_cell(b, ko)]));
            assert(assigned_before(p, c1, b, k, dv as int));
            assert(t1[dv - 1]);
            assert(dv != num);
            assert(c2[block_cell(b, k)] == Some(num));
        }
    }
}

pub proof fn lemma_count_true_push(s: Seq<bool>, v: bool)
    ensures
        count_true(s.push(v)) == count_true(s) + if v {
            1int
        } else {
            0int
        },
{
    assert(s.push(v).drop_last() =~= s);
}

/// A done block stays done when no cell of that block changes.
pub proof fn lemma_block_done_frame(p: Seq<Cell>, s1: Seq<Cell>, s2: Seq<Cell>, b: int)
    requires
        0 <= b < 9,
        s1.len() == 81,
        s2.len() == 81,
        forall|i: int| 0 <= i < 81 && block_of(i) == b ==> s1[i] == #[trigger] s2[i],
        block_done(p, s1, b),
    ensures
        block_done(p, s2, b),
{
    assert forall|k: int| 0 <= k < 9 implies s1[#[trigger] block_cell(b, k)] == s2[block_cell(
        b,
        k,
    )] by {
        lemma_block_cell_bounds(b, k);
    }
    assert forall|d: int| 1 <= d <= 9 implies #[trigger] block_has_exactly(
        merge_spec(p, s2),
        b,
        d,
    ) by {
        assert(block_has_exactly(merge_spec(p, s1), b, d));
        let k = choose|k: int|
            0 <= k < 9 && merge_spec(p, s1)[block_cell(b, k)] == Some(d as u8);
        lemma_block_cell_bounds(b, k);
        assert(merge_spec(p, s2)[block_cell(b, k)] == Some(d as u8));
        assert forall|k1: int, k2: int|
            0 <= k1 < 9 && 0 <= k2 < 9 && merge_spec(p, s2)[block_cell(b, k1)] == Some(d as u8)
                && merge_spec(p, s2)[block_cell(b, k2)] == Some(d as u8) implies k1 == k2 by {
            lemma_block_cell_bounds(b, k1);
            lemma_block_cell_bounds(b, k2);
            assert(merge_spec(p, s1)[block_cell(b, k1)] == Some(d as u8));
            assert(merge_spec(p, s1)[block_cell(b, k2)] == Some(d as u8));
        }
    }
}

/// Flat index of slot `k` of block `b`, computed at run time.
pub(crate) fn block_cell_idx(b: usize, k: usize) -> (i: usize)
    requires
        b < 9,
        k < 9,
    ensures
        i == block_cell(b as int, k as int),
        i < 81,
{
    proof {
        lemma_block_cell_bounds(b as int, k as int);
    }
    (b / 3 * 3 + k / 3) * 9 + (b % 3) * 3 + k % 3
}

/// Flat index of slot `k` of scoring group `g`, computed at run time.
pub(crate) fn group_cell_idx(g: usize, k: usize) -> (i: usize)
    requires
        g < 27,
        k < 9,
    ensures
        i == group_cell(g as int, k as int),
        i < 81,
{
    if g < 9 {
        g * 9 + k
    } else if g < 18 {
        k * 9 + (g - 9)
    } else {
        block_cell_idx(g - 18, k)
    }
}

/// The one-character string for a digit 0..=9.
fn digit_str(d: u8) -> (r: &'static str)
    requires
        d <= 9,
    ensures
        r@.len() == 1,
        r@[0] == char_of_digit(d as int),
{
    proof {
        reveal_strlit("0");
        reveal_strlit("1");
        reveal_strlit("2");
        reveal_strlit("3");
        reveal_strlit("4");
        reveal_strlit("5");
        reveal_strlit("6");
        reveal_strlit("7");
        reveal_strlit("8");
        reveal_strlit("9");
    }
    if d == 0 {
        "0"
    } else if d == 1 {
        "1"
    } else if d == 2 {
        "2"
    } else if d == 3 {
        "3"
    } else if d == 4 {
        "4"
    } else if d == 5 {
        "5"
    } else if d == 6 {
        "6"
    } else if d == 7 {
        "7"
    } else if d == 8 {
        "8"
    } else {
        "9"
    }
}

/// Renders 81 cells as their digit characters, '0' for empty.
pub(crate) fn cells_to_string(cells: &Vec<Cell>) -> (r: String)
    requires
        grid_wf(cells@),
    ensures
        r@ == serialize_spec(cells@),
{
    let mut out = String::new();
    let mut i: usize = 0;
    while i < 81
        invariant
            grid_wf(cells@),
            i <= 81,
            out@.len() == i,
            forall|j: int| 0 <= j < i ==> out@[j] == cell_char(cells@[j]),
        decreases 81 - i,
    {
        let d: u8 = match cells[i] {
            None => 0,
            Some(x) => x,
        };
        out.append(digit_str(d));
        i += 1;
    }
    assert(out@ =~= serialize_spec(cells@));
    out
}

/// Copies 81 cells into a fresh vector.
pub(crate) fn cells_duplicate(cells: &Vec<Cell>) -> (r: Vec<Cell>)
    ensures
        r@ == cells@,
{
    let mut out: Vec<Cell> = Vec::new();
    let mut i: usize = 0;
    let n = cells.len();
    while i < n
        invariant
            i <= n,
            n == cells@.len(),
            out@.len() == i,
            forall|j: int| 0 <= j < i ==> out@[j] == cells@[j],
        decreases n - i,
    {
        out.push(cells[i]);
        i += 1;
    }
    assert(out@ =~= cells@);
    out
}

} // verus!
