use vstd::prelude::*;
use vstd::arithmetic::div_mod::lemma_div_is_ordered;
use vstd::arithmetic::div_mod::lemma_div_is_ordered_by_denominator;
use vstd::arithmetic::div_mod::lemma_div_multiples_vanish;
use vstd::arithmetic::div_mod::lemma_div_pos_is_pos;
use vstd::arithmetic::div_mod::lemma_fundamental_div_mod;
use vstd::arithmetic::div_mod::lemma_mod_division_less_than_divisor;
use vstd::arithmetic::mul::lemma_mul_inequality;
use vstd::arithmetic::mul::lemma_mul_nonnegative;
use vstd::pervasive::unreached;

use crate::grid::blocks_valid;
use crate::grid::clues_consistent;
use crate::grid::complementary;
use crate::grid::intra_block_swap;
use crate::grid::lemma_intra_block_swap_preserves;
use crate::grid::merge_spec;
use crate::grid::parse_spec;
use crate::grid::score_spec;
use crate::grid::text_valid;
use crate::rng::random_below;
use crate::sudoku::Board;
use crate::sudoku::Solution;
use crate::SudokuError;

verus! {

/// Probability scale: this many parts stand for probability one.
pub const PROB_ONE: u64 = 65536;

/// The default starting temperature, in thousandths.
pub const DEFAULT_TEMPERATURE_MILLIS: u64 = 9000;

/// The default cooling decay, in parts per thousand.
pub const DEFAULT_DECAY_PERMILLE: u64 = 980;

/// How many stagnant steps trigger a perturbation burst.
pub const STAGNATION_THRESHOLD: u64 = 750;

/// How many forced random swaps one perturbation burst applies.
pub const PERTURBATION_BURST: u32 = 100;

/// One term of the power series for `exp(f / 65536)`, in 16-bit fixed
/// point: term 0 is one, term i is the previous term times `f / (65536 i)`.
pub open spec fn exp_term(f: int, i: int) -> int
    decreases i,
{
    if i <= 0 {
        65536
    } else {
        exp_term(f, i - 1) * f / (65536 * i)
    }
}

/// The power series for `exp(f / 65536)` through term `i`, in 16-bit fixed
/// point.
pub open spec fn exp_series(f: int, i: int) -> int
    decreases i,
{
    if i <= 0 {
        65536
    } else {
        exp_series(f, i - 1) + exp_term(f, i)
    }
}

/// One multiplication by Euler's number in 16-bit fixed point, clamped just
/// above the value at which the acceptance probability rounds to zero.
pub open spec fn scale_step(v: int) -> int {
    let w = v * 178145 / 65536;
    if w > 0x1_0000_0000 {
        0x1_0000_0001
    } else {
        w
    }
}

/// `v` multiplied `k` times by Euler's number, with the clamp.
pub open spec fn exp_scaled(v: int, k: int) -> int
    decreases k,
{
    if k <= 0 {
        v
    } else {
        exp_scaled(scale_step(v), k - 1)
    }
}

/// `exp(x / 65536)` in 16-bit fixed point, for `0 <= x < 16 * 65536`: the
/// series for the fractional part times Euler's number for each whole unit.
pub open spec fn exp_q16(x: int) -> int {
    exp_scaled(exp_series(x % 65536, 8), x / 65536)
}

/// The Metropolis acceptance threshold in parts of `PROB_ONE`: an integer
/// approximation of `PROB_ONE * exp(-diff / (temp_millis/1000))`. An equal
/// score (`diff == 0`) is accepted with certainty; a zero temperature or an
/// exponent of sixteen or more yields zero.
pub open spec fn accept_probability(diff: int, temp_millis: int) -> int {
    if diff <= 0 {
        65536
    } else if temp_millis <= 0 {
        0
    } else {
        let x = diff * 65536000 / temp_millis;
        if x >= 16 * 65536 {
            0
        } else {
            0x1_0000_0000int / exp_q16(x)
        }
    }
}

/// The Metropolis acceptance threshold in parts of `PROB_ONE`, computed in
/// integer fixed point. A worse neighbour is accepted when a uniform draw
/// from `0..PROB_ONE` falls below this value; an equal one (`diff == 0`) is
/// always accepted.
#[verifier::rlimit(60)]
fn accept_threshold(diff: u32, temp_millis: u64) -> (p: u64)
    ensures
        p == accept_probability(diff as int, temp_millis as int),
        p <= PROB_ONE,
        diff == 0 ==> p == PROB_ONE,
        temp_millis == 0 && diff > 0 ==> p == 0,
{
    if diff == 0 {
        return PROB_ONE;
    }
    if temp_millis == 0 {
        return 0;
    }
    // The exponent diff / (temp_millis / 1000), in 16-bit fixed point.
    let x_q16: u64 = (diff as u64) * 65536000 / temp_millis;
    if x_q16 >= 16 * 65536 {
        // exp(-16) is far below the scale's resolution.
        return 0;
    }
    let k: u64 = x_q16 / 65536;
    let f: u64 = x_q16 % 65536;
    proof {
        lemma_div_is_ordered(x_q16 as int, 16 * 65536 - 1, 65536);
    }
    assert(k <= 15);
    assert(f < 65536);
    // The series for exp(f / 65536).
    let mut term: u64 = 65536;
    let mut acc: u64 = 65536;
    let mut i: u64 = 1;
    while i <= 8
        invariant
            1 <= i <= 9,
            f < 65536,
            term == exp_term(f as int, i as int - 1),
            acc == exp_series(f as int, i as int - 1),
            0 <= term <= 65536,
            65536 <= acc <= 65536 + (i - 1) * 65536,
        decreases 9 - i,
    {
        proof {
            lemma_mul_nonnegative(term as int, f as int);
            lemma_div_pos_is_pos(term as int * f as int, 65536 * i as int);
            lemma_mul_inequality(term as int, 65536, f as int);
            lemma_mul_inequality(f as int, 65535, 65536);
            lemma_div_is_ordered(term as int * f as int, 65536int * 65535, 65536 * i as int);
            lemma_div_is_ordered_by_denominator(65536int * 65535, 65536, 65536 * i as int);
        }
        term = term * f / (65536 * i);
        acc = acc + term;
        i += 1;
    }
    // Multiply in exp(1) for each whole unit of the exponent.
    let ghost acc0 = acc as int;
    let mut e: u64 = acc;
    let mut j: u64 = 0;
    while j < k
        invariant
            j <= k,
            k <= 15,
            acc0 == exp_series(f as int, 8),
            e == exp_scaled(acc0, j as int),
            65536 <= e <= 0x1_0000_0001,
        decreases k - j,
    {
        proof {
            lemma_exp_scaled_unfold(acc0, j as int);
            lemma_mul_inequality(65536, e as int, 178145);
            lemma_mul_inequality(e as int, 0x1_0000_0001, 178145);
            lemma_div_is_ordered(65536int * 178145, e as int * 178145, 65536);
            lemma_div_multiples_vanish(178145, 65536);
        }
        let w = e * 178145 / 65536;
        if w > 0x1_0000_0000 {
            e = 0x1_0000_0001;
        } else {
            e = w;
        }
        j += 1;
    }
    proof {
        lemma_div_is_ordered_by_denominator(0x1_0000_0000, 65536, e as int);
        lemma_div_pos_is_pos(0x1_0000_0000, e as int);
    }
    assert(0x1_0000_0000int / 65536 == 65536);
    0x1_0000_0000u64 / e
}


/// Peels the iterated multiplication from its far end.
proof fn lemma_exp_scaled_unfold(v: int, k: int)
    requires
        0 <= k,
    ensures
        exp_scaled(v, k + 1) == scale_step(exp_scaled(v, k)),
    decreases k,
{
    if k > 0 {
        lemma_exp_scaled_unfold(scale_step(v), k - 1);
        assert(exp_scaled(v, k + 1) == exp_scaled(scale_step(v), k));
        assert(exp_scaled(v, k) == exp_scaled(scale_step(v), k - 1));
    } else {
        assert(exp_scaled(v, 1) == exp_scaled(scale_step(v), 0));
    }
}

/// Series terms are nonnegative and no larger than the scale.
proof fn lemma_exp_term_props(f: int, i: int)
    requires
        0 <= f <= 65535,
        0 <= i,
    ensures
        0 <= exp_term(f, i) <= 65536,
    decreases i,
{
    if i > 0 {
        lemma_exp_term_props(f, i - 1);
        lemma_mul_nonnegative(exp_term(f, i - 1), f);
        lemma_div_pos_is_pos(exp_term(f, i - 1) * f, 65536 * i);
        lemma_mul_inequality(exp_term(f, i - 1), 65536, f);
        lemma_mul_inequality(f, 65535, 65536);
        lemma_div_is_ordered(exp_term(f, i - 1) * f, 65536int * 65535, 65536 * i);
        lemma_div_is_ordered_by_denominator(65536int * 65535, 65536, 65536 * i);
    }
}

/// A larger fractional part gives no smaller series terms.
proof fn lemma_exp_term_mono(f1: int, f2: int, i: int)
    requires
        0 <= f1 <= f2 <= 65535,
        0 <= i,
    ensures
        exp_term(f1, i) <= exp_term(f2, i),
    decreases i,
{
    if i > 0 {
        lemma_exp_term_mono(f1, f2, i - 1);
        lemma_exp_term_props(f1, i - 1);
        lemma_exp_term_props(f2, i - 1);
        let t1 = exp_term(f1, i - 1);
        let t2 = exp_term(f2, i - 1);
        assert(t1 * f1 <= t2 * f2) by (nonlinear_arith)
            requires
                0 <= t1 <= t2,
                0 <= f1 <= f2,
        ;
        lemma_div_is_ordered(t1 * f1, t2 * f2, 65536 * i);
    }
}

/// The series is at least one in the scale and bounded by its length.
proof fn lemma_exp_series_props(f: int, i: int)
    requires
        0 <= f <= 65535,
        0 <= i,
    ensures
        65536 <= exp_series(f, i) <= 65536 + i * 65536,
    decreases i,
{
    if i > 0 {
        lemma_exp_series_props(f, i - 1);
        lemma_exp_term_props(f, i);
    }
}

/// A larger fractional part gives no smaller series value.
proof fn lemma_exp_series_mono(f1: int, f2: int, i: int)
    requires
        0 <= f1 <= f2 <= 65535,
        0 <= i,
    ensures
        exp_series(f1, i) <= exp_series(f2, i),
    decreases i,
{
    if i > 0 {
        lemma_exp_series_mono(f1, f2, i - 1);
        lemma_exp_term_mono(f1, f2, i);
    }
}

/// One step of the factorial decay: a bound on the previous term bounds the
/// next.
proof fn lemma_term_le(f: int, b: int, i: int)
    requires
        0 <= f <= 65535,
        1 <= i,
        0 <= exp_term(f, i - 1) <= b,
    ensures
        0 <= exp_term(f, i) <= b * 65535 / (65536 * i),
{
    let t = exp_term(f, i - 1);
    assert(t * f <= b * 65535) by (nonlinear_arith)
        requires
            0 <= t <= b,
            0 <= f <= 65535,
    ;
    lemma_div_is_ordered(t * f, b * 65535, 65536 * i);
    lemma_mul_nonnegative(t, f);
    lemma_div_pos_is_pos(t * f, 65536 * i);
}

/// Eight series terms never exceed Euler's number in the scale.
proof fn lemma_exp_series_le_e(f: int)
    requires
        0 <= f <= 65535,
    ensures
        exp_series(f, 8) <= 178145,
{
    lemma_div_multiples_vanish(f, 65536);
    assert(exp_term(f, 0) == 65536);
    assert(exp_term(f, 1) == 65536 * f / (65536int * 1));
    assert(0 <= exp_term(f, 1) <= 65535);
    lemma_term_le(f, 65535, 2);
    assert(65535int * 65535 / (65536int * 2) == 32767);
    lemma_term_le(f, 32767, 3);
    assert(32767int * 65535 / (65536int * 3) == 10922);
    lemma_term_le(f, 10922, 4);
    assert(10922int * 65535 / (65536int * 4) == 2730);
    lemma_term_le(f, 2730, 5);
    assert(2730int * 65535 / (65536int * 5) == 545);
    lemma_term_le(f, 545, 6);
    assert(545int * 65535 / (65536int * 6) == 90);
    lemma_term_le(f, 90, 7);
    assert(90int * 65535 / (65536int * 7) == 12);
    lemma_term_le(f, 12, 8);
    assert(12int * 65535 / (65536int * 8) == 1);
    assert(exp_series(f, 0) == 65536);
    assert(exp_series(f, 1) == exp_series(f, 0) + exp_term(f, 1));
    assert(exp_series(f, 2) == exp_series(f, 1) + exp_term(f, 2));
    assert(exp_series(f, 3) == exp_series(f, 2) + exp_term(f, 3));
    assert(exp_series(f, 4) == exp_series(f, 3) + exp_term(f, 4));
    assert(exp_series(f, 5) == exp_series(f, 4) + exp_term(f, 5));
    assert(exp_series(f, 6) == exp_series(f, 5) + exp_term(f, 6));
    assert(exp_series(f, 7) == exp_series(f, 6) + exp_term(f, 7));
    assert(exp_series(f, 8) == exp_series(f, 7) + exp_term(f, 8));
}

/// Scaling preserves order and nonnegativity.
proof fn lemma_scale_step_mono(v1: int, v2: int)
    requires
        0 <= v1 <= v2,
    ensures
        0 <= scale_step(v1) <= scale_step(v2),
{
    lemma_mul_inequality(v1, v2, 178145);
    lemma_div_is_ordered(v1 * 178145, v2 * 178145, 65536);
    lemma_mul_nonnegative(v1, 178145);
    lemma_div_pos_is_pos(v1 * 178145, 65536);
}

/// Scaling never shrinks a value and respects the clamp.
proof fn lemma_scale_step_ge(v: int)
    requires
        0 <= v <= 0x1_0000_0001,
    ensures
        v <= scale_step(v) <= 0x1_0000_0001,
{
    lemma_mul_inequality(65536, 178145, v);
    lemma_div_multiples_vanish(v, 65536);
    lemma_div_is_ordered(65536 * v, v * 178145, 65536);
}

/// Iterated scaling preserves order between starting values.
proof fn lemma_exp_scaled_mono_v(v1: int, v2: int, k: int)
    requires
        0 <= v1 <= v2,
        0 <= k,
    ensures
        exp_scaled(v1, k) <= exp_scaled(v2, k),
    decreases k,
{
    if k > 0 {
        lemma_scale_step_mono(v1, v2);
        lemma_exp_scaled_mono_v(scale_step(v1), scale_step(v2), k - 1);
    }
}

/// Iterated scaling never shrinks a value and stays within the clamp.
proof fn lemma_exp_scaled_bounds(v: int, k: int)
    requires
        65536 <= v <= 0x1_0000_0001,
        0 <= k,
    ensures
        v <= exp_scaled(v, k),
        65536 <= exp_scaled(v, k) <= 0x1_0000_0001,
    decreases k,
{
    if k > 0 {
        lemma_scale_step_ge(v);
        lemma_exp_scaled_bounds(scale_step(v), k - 1);
    }
}

/// More scaling steps give no smaller value.
proof fn lemma_exp_scaled_mono_k(v: int, k1: int, k2: int)
    requires
        65536 <= v <= 0x1_0000_0001,
        0 <= k1 <= k2,
    ensures
        exp_scaled(v, k1) <= exp_scaled(v, k2),
    decreases k2,
{
    if k1 > 0 {
        lemma_scale_step_ge(v);
        lemma_exp_scaled_mono_k(scale_step(v), k1 - 1, k2 - 1);
    } else if k2 > 0 {
        lemma_exp_scaled_bounds(v, k2);
    }
}

/// The fixed-point exponential stays between one and the clamp.
proof fn lemma_exp_q16_bounds(x: int)
    requires
        0 <= x < 16 * 65536,
    ensures
        65536 <= exp_q16(x) <= 0x1_0000_0001,
{
    lemma_mod_division_less_than_divisor(x, 65536);
    lemma_div_pos_is_pos(x, 65536);
    lemma_exp_series_props(x % 65536, 8);
    lemma_exp_scaled_bounds(exp_series(x % 65536, 8), x / 65536);
}

/// The fixed-point exponential is nondecreasing in its exponent.
proof fn lemma_exp_q16_mono(x1: int, x2: int)
    requires
        0 <= x1 <= x2 < 16 * 65536,
    ensures
        exp_q16(x1) <= exp_q16(x2),
{
    let f1 = x1 % 65536;
    let k1 = x1 / 65536;
    let f2 = x2 % 65536;
    let k2 = x2 / 65536;
    lemma_mod_division_less_than_divisor(x1, 65536);
    lemma_mod_division_less_than_divisor(x2, 65536);
    lemma_div_pos_is_pos(x1, 65536);
    lemma_div_is_ordered(x1, x2, 65536);
    lemma_exp_series_props(f1, 8);
    lemma_exp_series_props(f2, 8);
    if k1 == k2 {
        lemma_fundamental_div_mod(x1, 65536);
        lemma_fundamental_div_mod(x2, 65536);
        assert(f1 <= f2);
        lemma_exp_series_mono(f1, f2, 8);
        lemma_exp_scaled_mono_v(exp_series(f1, 8), exp_series(f2, 8), k1);
    } else {
        lemma_exp_series_le_e(f1);
        lemma_exp_scaled_mono_v(exp_series(f1, 8), 178145, k1);
        lemma_exp_scaled_mono_k(178145, k1, k2 - 1);
        lemma_div_multiples_vanish(178145, 65536);
        assert(scale_step(65536) == 178145);
        assert(exp_scaled(65536, k2) == exp_scaled(178145, k2 - 1));
        lemma_exp_scaled_mono_v(65536, exp_series(f2, 8), k2);
    }
}

/// The acceptance threshold always lies between zero and certainty.
pub proof fn lemma_accept_probability_bounds(diff: int, temp_millis: int)
    ensures
        0 <= accept_probability(diff, temp_millis) <= 65536,
{
    if diff > 0 && temp_millis > 0 {
        let x = diff * 65536000 / temp_millis;
        lemma_mul_nonnegative(diff, 65536000);
        lemma_div_pos_is_pos(diff * 65536000, temp_millis);
        if x < 16 * 65536 {
            lemma_exp_q16_bounds(x);
            lemma_div_is_ordered_by_denominator(0x1_0000_0000, 65536, exp_q16(x));
            lemma_div_pos_is_pos(0x1_0000_0000, exp_q16(x));
            assert(0x1_0000_0000int / 65536 == 65536);
        }
    }
}

/// A larger score worsening is never likelier to be accepted: the
/// Metropolis threshold is nonincreasing in the score difference.
pub proof fn lemma_accept_monotone_in_diff(diff1: int, diff2: int, temp_millis: int)
    requires
        0 <= diff1 <= diff2,
    ensures
        accept_probability(diff2, temp_millis) <= accept_probability(diff1, temp_millis),
{
    lemma_accept_probability_bounds(diff1, temp_millis);
    lemma_accept_probability_bounds(diff2, temp_millis);
    if diff1 > 0 && temp_millis > 0 {
        let x1 = diff1 * 65536000 / temp_millis;
        let x2 = diff2 * 65536000 / temp_millis;
        lemma_mul_nonnegative(diff1, 65536000);
        lemma_div_pos_is_pos(diff1 * 65536000, temp_millis);
        lemma_mul_inequality(diff1, diff2, 65536000);
        lemma_div_is_ordered(diff1 * 65536000, diff2 * 65536000, temp_millis);
        if x2 < 16 * 65536 {
            lemma_exp_q16_mono(x1, x2);
            lemma_exp_q16_bounds(x1);
            lemma_exp_q16_bounds(x2);
            lemma_div_is_ordered_by_denominator(0x1_0000_0000, exp_q16(x1), exp_q16(x2));
        }
    }
}

/// A cooler temperature never makes acceptance likelier: the Metropolis
/// threshold is nondecreasing in the temperature.
pub proof fn lemma_accept_monotone_in_temperature(diff: int, temp1: int, temp2: int)
    requires
        0 <= temp1 <= temp2,
    ensures
        accept_probability(diff, temp1) <= accept_probability(diff, temp2),
{
    lemma_accept_probability_bounds(diff, temp1);
    lemma_accept_probability_bounds(diff, temp2);
    if diff > 0 && temp1 > 0 {
        let x1 = diff * 65536000 / temp1;
        let x2 = diff * 65536000 / temp2;
        lemma_mul_nonnegative(diff, 65536000);
        lemma_div_pos_is_pos(diff * 65536000, temp2);
        lemma_div_is_ordered_by_denominator(diff * 65536000, temp1, temp2);
        if x1 < 16 * 65536 {
            lemma_exp_q16_mono(x2, x1);
            lemma_exp_q16_bounds(x1);
            lemma_exp_q16_bounds(x2);
            lemma_div_is_ordered_by_denominator(0x1_0000_0000, exp_q16(x2), exp_q16(x1));
        }
    }
}

/// The solver's state for one annealing session: the puzzle, the current
/// candidate and its score, and the cooling schedule.
pub struct Solver {
    pub board: Board,
    pub solution: Solution,
    pub current_score: u32,
    pub temperature_millis: u64,
    pub decay_permille: u64,
    pub time_since_last_improvement: u64,
}

impl Solver {
    /// The solver's invariant: the candidate fills exactly the puzzle's
    /// empty cells, every merged block holds each digit 1..=9 exactly once,
    /// and the stored score is the merged grid's conflict count.
    pub open spec fn wf(&self) -> bool {
        &&& self.board.wf()
        &&& self.solution.wf()
        &&& complementary(self.board@, self.solution@)
        &&& blocks_valid(merge_spec(self.board@, self.solution@))
        &&& self.current_score == score_spec(merge_spec(self.board@, self.solution@))
        &&& self.temperature_millis <= 0xFFFF_FFFF
        &&& self.decay_permille <= 1000
    }

    /// Builds a solver from puzzle text with an explicit schedule: the
    /// starting temperature in thousandths and the decay in parts per
    /// thousand. Fails with a format error on malformed text and with a
    /// conflict error when a block's clues repeat a digit.
    pub fn new_with_params(board: &str, temperature_millis: u64, decay_permille: u64) -> (r:
        Result<Solver, SudokuError>)
        requires
            temperature_millis <= 0xFFFF_FFFF,
            decay_permille <= 1000,
        ensures
            (r is Ok) <==> (text_valid(board@) && clues_consistent(parse_spec(board@))),
            !text_valid(board@) ==> r == Err::<Solver, SudokuError>(SudokuError::Format),
            text_valid(board@) && !clues_consistent(parse_spec(board@)) ==> r == Err::<
                Solver,
                SudokuError,
            >(SudokuError::Conflict),
            r matches Ok(sv) ==> sv.wf() && sv.board@ == parse_spec(board@)
                && sv.temperature_millis == temperature_millis && sv.decay_permille
                == decay_permille && sv.time_since_last_improvement == 0,
    {
        let parsed = match Board::from_string(board) {
            Ok(b) => b,
            Err(e) => {
                return Err(e);
            },
        };
        let solution = match Solution::new_from_board(&parsed) {
            Ok(s) => s,
            Err(e) => {
                return Err(e);
            },
        };
        let current_score = match parsed.score_solution(&solution) {
            Ok(s) => s,
            Err(_) => {
                proof {
                    assert(false);
                }
                unreached()
            },
        };
        Ok(
            Solver {
                board: parsed,
                solution,
                current_score,
                temperature_millis,
                decay_permille,
                time_since_last_improvement: 0,
            },
        )
    }

    /// Builds a solver from puzzle text with the default schedule.
    pub fn new_with_board(board: &str) -> (r: Result<Solver, SudokuError>)
        ensures
            (r is Ok) <==> (text_valid(board@) && clues_consistent(parse_spec(board@))),
            !text_valid(board@) ==> r == Err::<Solver, SudokuError>(SudokuError::Format),
            text_valid(board@) && !clues_consistent(parse_spec(board@)) ==> r == Err::<
                Solver,
                SudokuError,
            >(SudokuError::Conflict),
            r matches Ok(sv) ==> sv.wf() && sv.board@ == parse_spec(board@)
                && sv.temperature_millis == DEFAULT_TEMPERATURE_MILLIS && sv.decay_permille
                == DEFAULT_DECAY_PERMILLE && sv.time_since_last_improvement == 0,
    {
        Solver::new_with_params(board, DEFAULT_TEMPERATURE_MILLIS, DEFAULT_DECAY_PERMILLE)
    }

    /// Lowers the temperature by one decay step.
    fn cool(&mut self)
        requires
            old(self).temperature_millis <= 0xFFFF_FFFF,
            old(self).decay_permille <= 1000,
        ensures
            final(self).temperature_millis == old(self).temperature_millis * old(
                self,
            ).decay_permille / 1000,
            final(self).temperature_millis <= old(self).temperature_millis,
            final(self).board == old(self).board,
            final(self).solution == old(self).solution,
            final(self).current_score == old(self).current_score,
            final(self).decay_permille == old(self).decay_permille,
            final(self).time_since_last_improvement == old(self).time_since_last_improvement,
    {
        proof {
            let t = old(self).temperature_millis as int;
            let d = old(self).decay_permille as int;
            assert(t * d <= t * 1000) by (nonlinear_arith)
                requires
                    0 <= t,
                    d <= 1000,
            ;
            lemma_div_is_ordered(t * d, t * 1000, 1000);
            assert(t * 1000 / 1000 == t) by (nonlinear_arith);
        }
        self.temperature_millis = self.temperature_millis * self.decay_permille / 1000;
    }

    /// One annealing step: perturb a copy of the candidate, score it, accept
    /// it when better (returning the solution when its score reaches zero),
    /// and otherwise accept it with the Metropolis probability while the
    /// temperature cools. Success is reported exactly when a strictly
    /// improving neighbour reaches score zero; a worse-or-equal outcome
    /// cools the temperature and increments the stagnation counter
    /// (saturating only at the integer's limit), whatever the random draws
    /// were.
    fn solve_one_step(&mut self) -> (r: Option<Solution>)
        requires
            old(self).wf(),
        ensures
            final(self).wf(),
            final(self).board@ == old(self).board@,
            final(self).decay_permille == old(self).decay_permille,
            final(self).temperature_millis <= old(self).temperature_millis,
            (r is Some) <==> (old(self).current_score > 0 && final(self).current_score == 0),
            r matches Some(sol) ==> sol.wf() && sol@ == final(self).solution@
                && final(self).current_score == 0
                && score_spec(merge_spec(final(self).board@, sol@)) == 0,
            final(self).solution@ == old(self).solution@ || intra_block_swap(
                old(self).solution@,
                final(self).solution@,
            ),
            final(self).current_score < old(self).current_score ==> (
            final(self).temperature_millis == old(self).temperature_millis
                && final(self).time_since_last_improvement == 0),
            final(self).current_score >= old(self).current_score ==> (r is None
                && final(self).temperature_millis == old(self).temperature_millis * old(
                self,
            ).decay_permille / 1000 && final(self).time_since_last_improvement == (
            if old(self).time_since_last_improvement < u64::MAX {
                old(self).time_since_last_improvement as int + 1
            } else {
                old(self).time_since_last_improvement as int
            })),
    {
        let mut new_solution = self.solution.clone();
        new_solution.flip_random_spaces();
        proof {
            if new_solution@ != self.solution@ {
                lemma_intra_block_swap_preserves(self.board@, self.solution@, new_solution@);
            }
        }
        let new_score = match self.board.score_solution(&new_solution) {
            Ok(s) => s,
            Err(_) => {
                proof {
                    assert(false);
                }
                unreached()
            },
        };
        if new_score < self.current_score {
            self.solution = new_solution;
            self.current_score = new_score;
            self.time_since_last_improvement = 0;
            if self.current_score == 0 {
                return Some(self.solution.clone());
            } else {
                return None;
            }
        }
        if self.time_since_last_improvement < u64::MAX {
            self.time_since_last_improvement = self.time_since_last_improvement + 1;
        }
        let p_accept = accept_threshold(new_score - self.current_score, self.temperature_millis);
        self.cool();
        let roll = random_below(65536);
        if (roll as u64) < p_accept {
            self.solution = new_solution;
            self.current_score = new_score;
        }
        None
    }

    /// Runs annealing steps up to the iteration budget. Returns the solved
    /// grid as soon as a step reaches score zero — the returned candidate
    /// provably merges with the puzzle into a conflict-free solution — and
    /// reports failure when the budget runs out, leaving the current
    /// candidate and score readable for diagnostics. Whenever the search
    /// stagnates, a burst of forced random swaps perturbs the candidate.
    pub fn solve(&mut self, max_iter: i32) -> (r: Option<Solution>)
        requires
            old(self).wf(),
        ensures
            final(self).wf(),
            final(self).board@ == old(self).board@,
            final(self).decay_permille == old(self).decay_permille,
            final(self).temperature_millis <= old(self).temperature_millis,
            max_iter <= 0 ==> (r is None && *final(self) == *old(self)),
            max_iter >= 1 && r is None ==> (final(self).current_score < old(self).current_score
                || final(self).temperature_millis <= old(self).temperature_millis * old(
                self,
            ).decay_permille / 1000),
            r matches Some(sol) ==> sol.wf() && sol@ == final(self).solution@
                && final(self).current_score == 0
                && score_spec(merge_spec(old(self).board@, sol@)) == 0,
    {
        if max_iter <= 0 {
            return None;
        }
        let mut it: i32 = 0;
        while it < max_iter
            invariant
                self.wf(),
                self.board@ == old(self).board@,
                self.decay_permille == old(self).decay_permille,
                self.temperature_millis <= old(self).temperature_millis,
                0 <= it <= max_iter,
                it == 0 ==> *self == *old(self),
                it >= 1 ==> (self.current_score < old(self).current_score
                    || self.temperature_millis <= old(self).temperature_millis * old(
                    self,
                ).decay_permille / 1000),
            decreases max_iter - it,
        {
            let ghost prev = *self;
            let step = self.solve_one_step();
            proof {
                if self.current_score >= prev.current_score {
                    lemma_mul_inequality(
                        prev.temperature_millis as int,
                        old(self).temperature_millis as int,
                        old(self).decay_permille as int,
                    );
                    lemma_div_is_ordered(
                        prev.temperature_millis as int * old(self).decay_permille as int,
                        old(self).temperature_millis as int * old(self).decay_permille as int,
                        1000,
                    );
                }
            }
            if let Some(solution) = step {
                return Some(solution);
            }
            if self.time_since_last_improvement >= STAGNATION_THRESHOLD {
                proof {
                    // The counter reaches the threshold only through a
                    // worse-or-equal step, which has just cooled the
                    // temperature.
                    assert(self.current_score >= prev.current_score);
                }
                let ghost cooled = self.temperature_millis;
                let mut burst: u32 = 0;
                while burst < PERTURBATION_BURST
                    invariant
                        burst <= PERTURBATION_BURST,
                        self.board.wf(),
                        self.solution.wf(),
                        self.board@ == old(self).board@,
                        complementary(self.board@, self.solution@),
                        blocks_valid(merge_spec(self.board@, self.solution@)),
                        self.temperature_millis == cooled,
                        cooled <= old(self).temperature_millis * old(self).decay_permille
                            / 1000,
                        self.temperature_millis <= old(self).temperature_millis,
                        self.temperature_millis <= 0xFFFF_FFFF,
                        self.decay_permille == old(self).decay_permille,
                        self.decay_permille <= 1000,
                    decreases PERTURBATION_BURST - burst,
                {
                    let ghost before = self.solution@;
                    self.solution.flip_random_spaces();
                    proof {
                        if self.solution@ != before {
                            lemma_intra_block_swap_preserves(self.board@, before, self.solution@);
                        }
                    }
                    burst += 1;
                }
                let rescored = match self.board.score_solution(&self.solution) {
                    Ok(s) => s,
                    Err(_) => {
                        proof {
                            assert(false);
                        }
                        unreached()
                    },
                };
                self.current_score = rescored;
            }
            it += 1;
        }
        None
    }
}

} // verus!
