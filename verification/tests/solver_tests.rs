use soducant::Board;
use soducant::Solution;
use soducant::Solver;
use soducant::SudokuError;

const PUZZLE: &str = "278000401609100050005006900430809000706003000091000800000020173860001004107934685";

#[test]
fn solver_construction_sets_schedule() {
    let solver = Solver::new_with_params(PUZZLE, 4000, 950).unwrap();
    assert_eq!(solver.temperature_millis, 4000);
    assert_eq!(solver.decay_permille, 950);
    let solver = Solver::new_with_board(PUZZLE).unwrap();
    assert_eq!(solver.temperature_millis, 9000);
    assert_eq!(solver.decay_permille, 980);
}

#[test]
fn solver_rejects_bad_text() {
    assert_eq!(Solver::new_with_board("12").err(), Some(SudokuError::Format));
    let mut text = String::from("33");
    text.push_str(&"0".repeat(79));
    assert_eq!(Solver::new_with_board(&text).err(), Some(SudokuError::Conflict));
}

#[test]
fn solved_result_scores_zero() {
    let board = Board::from_string(PUZZLE).unwrap();
    for _ in 0..10 {
        let mut solver = Solver::new_with_board(PUZZLE).unwrap();
        if let Some(solution) = solver.solve(20000) {
            assert_eq!(board.score_solution(&solution).unwrap(), 0);
            assert_eq!(solver.current_score, 0);
            return;
        }
    }
    panic!("no run out of ten found a solution");
}

#[test]
fn failure_leaves_diagnostics_readable() {
    let mut solver = Solver::new_with_board(PUZZLE).unwrap();
    // A one-step budget all but surely fails; state must stay readable.
    let result = solver.solve(1);
    if result.is_none() {
        assert!(solver.current_score > 0);
        let text = solver.solution.to_clean_string();
        assert_eq!(text.len(), 81);
    }
}

#[test]
fn repeated_runs_mostly_succeed() {
    let mut passes = 0;
    for _ in 0..50 {
        let mut solver = Solver::new_with_board(PUZZLE).unwrap();
        if solver.solve(20000).is_some() {
            passes += 1;
        }
    }
    assert!(passes >= 40, "only {} of 50 runs succeeded", passes);
}

const FILL_OK: &str = "000395060040082307310740028002050716080210549500467032954608000003570290020000000";

fn full_grid() -> String {
    let board = Board::from_string(PUZZLE).unwrap();
    let fill = Solution::from_board(Board::from_string(FILL_OK).unwrap());
    board.combine(&fill).unwrap().to_clean_string()
}

#[test]
fn stagnation_counter_counts_fruitless_steps() {
    let full = full_grid();
    let mut solver = Solver::new_with_board(&full).unwrap();
    assert_eq!(solver.time_since_last_improvement, 0);
    // A complete puzzle leaves the candidate empty: every step draws a
    // no-move neighbour with an equal score, so no step strictly improves
    // and the counter grows by one per step.
    assert!(solver.solve(5).is_none());
    assert_eq!(solver.time_since_last_improvement, 5);
    // Once the threshold is reached the kick fires on every further step,
    // but firing never resets the counter, nor stops it counting; only a
    // strict improvement resets it.
    assert!(solver.solve(800).is_none());
    assert_eq!(solver.time_since_last_improvement, 805);
    assert!(solver.solve(10).is_none());
    assert_eq!(solver.time_since_last_improvement, 815);
}

#[test]
fn stagnation_counter_resets_on_improvement() {
    let full = full_grid();
    let bytes = full.as_bytes();
    // Find two cells of block 0 whose digits descend in scan order; after
    // blanking them, the ascending deterministic fill starts them wrong, so
    // the only productive move is the swap that improves the score to zero.
    let mut pair = None;
    for k1 in 0..9 {
        for k2 in (k1 + 1)..9 {
            let i1 = (k1 / 3) * 9 + k1 % 3;
            let i2 = (k2 / 3) * 9 + k2 % 3;
            if bytes[i1] > bytes[i2] && pair.is_none() {
                pair = Some((i1, i2));
            }
        }
    }
    let (i1, i2) = pair.unwrap();
    let mut puzzle = full.clone().into_bytes();
    puzzle[i1] = b'0';
    puzzle[i2] = b'0';
    let puzzle = String::from_utf8(puzzle).unwrap();
    let mut solver = Solver::new_with_board(&puzzle).unwrap();
    assert!(solver.current_score > 0);
    solver.time_since_last_improvement = 400;
    assert!(solver.solve(100000).is_some());
    assert_eq!(solver.time_since_last_improvement, 0);
    assert_eq!(solver.current_score, 0);
}
