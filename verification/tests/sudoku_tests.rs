use soducant::Board;
use soducant::Solution;
use soducant::SudokuError;

const PUZZLE: &str = "278000401609100050005006900430809000706003000091000800000020173860001004107934685";
const FILL_OK: &str = "000395060040082307310740028002050716080210549500467032954608000003570290020000000";
const FILL_BAD: &str = "000495060040082307310740028002050716080210549500467032954608000003570290020000000";
const FILL_OVERLAP: &str =
    "000395060040082307310740028002050716080210549500467032954608000003570290020000003";

#[test]
fn correct_solution() {
    let board = Board::from_string(PUZZLE).unwrap();
    let solution = Solution::from_board(Board::from_string(FILL_OK).unwrap());
    let score = board.score_solution(&solution).unwrap();
    assert_eq!(score, 0);
}

#[test]
fn incorrect_solution() {
    let board = Board::from_string(PUZZLE).unwrap();
    let solution = Solution::from_board(Board::from_string(FILL_BAD).unwrap());
    let score = board.score_solution(&solution).unwrap();
    assert_eq!(score, 3);
}

#[test]
fn errored_solution() {
    let board = Board::from_string(PUZZLE).unwrap();
    let solution = Solution::from_board(Board::from_string(FILL_OVERLAP).unwrap());
    let score = board.score_solution(&solution);
    assert!(score.is_err());
}

#[test]
fn test_flip() {
    let mut solution = Solution::from_board(
        Board::from_string(
            "123456789123456789123456789123456789123456789123456789123456789123456789123456789",
        )
        .unwrap(),
    );
    solution.flip_spaces(0, 0, 0, 1);
    assert_eq!(solution.get(0, 0), Some(2));
    assert_eq!(solution.get(0, 1), Some(1));
}

#[test]
fn round_trip_puzzle_text() {
    let board = Board::from_string(PUZZLE).unwrap();
    assert_eq!(board.to_clean_string(), PUZZLE);
    let empty = "0".repeat(81);
    let board = Board::from_string(&empty).unwrap();
    assert_eq!(board.to_clean_string(), empty);
    let fill = Board::from_string(FILL_OK).unwrap();
    assert_eq!(fill.to_clean_string(), FILL_OK);
}

#[test]
fn format_error_on_wrong_length() {
    assert_eq!(Board::from_string("123").err(), Some(SudokuError::Format));
    let long = "0".repeat(82);
    assert_eq!(Board::from_string(&long).err(), Some(SudokuError::Format));
    assert_eq!(Board::from_string("").err(), Some(SudokuError::Format));
}

#[test]
fn format_error_on_non_digit() {
    let mut text = "0".repeat(80);
    text.push('a');
    assert_eq!(Board::from_string(&text).err(), Some(SudokuError::Format));
    let mut text = String::new();
    text.push('.');
    text.push_str(&"0".repeat(80));
    assert_eq!(Board::from_string(&text).err(), Some(SudokuError::Format));
}

#[test]
fn merge_error_when_both_empty() {
    let empty = "0".repeat(81);
    let board = Board::from_string(&empty).unwrap();
    let solution = Solution::from_board(Board::from_string(&empty).unwrap());
    assert_eq!(board.score_solution(&solution), Err(SudokuError::Merge));
    assert!(board.combine(&solution).is_err());
}

#[test]
fn merge_error_when_both_filled() {
    let board = Board::from_string(PUZZLE).unwrap();
    let overlap = Solution::from_board(Board::from_string(PUZZLE).unwrap());
    assert_eq!(board.score_solution(&overlap), Err(SudokuError::Merge));
}

#[test]
fn conflict_error_on_repeated_clue() {
    let mut text = String::from("55");
    text.push_str(&"0".repeat(79));
    let board = Board::from_string(&text).unwrap();
    assert_eq!(Solution::new_from_board(&board).err(), Some(SudokuError::Conflict));
}

#[test]
fn from_arr_matches_from_string() {
    let mut arr = [[0u8; 9]; 9];
    arr[0][0] = 2;
    arr[0][1] = 7;
    arr[8][8] = 5;
    let board = Board::from_arr_with_zeros(&arr).unwrap();
    let mut expected = String::from("27");
    expected.push_str(&"0".repeat(78));
    expected.push('5');
    assert_eq!(board.to_clean_string(), expected);
}

#[test]
fn from_arr_rejects_large_entries() {
    let mut arr = [[0u8; 9]; 9];
    arr[4][4] = 10;
    assert!(Board::from_arr_with_zeros(&arr).is_err());
}

fn digits_in_block(text: &str, block: usize) -> [u32; 10] {
    let bytes = text.as_bytes();
    let mut counts = [0u32; 10];
    for k in 0..9 {
        let row = (block / 3) * 3 + k / 3;
        let col = (block % 3) * 3 + k % 3;
        let d = (bytes[row * 9 + col] - b'0') as usize;
        counts[d] += 1;
    }
    counts
}

fn assert_blocks_complete(board: &Board, solution: &Solution) {
    let merged = board.combine(solution).unwrap().to_clean_string();
    for block in 0..9 {
        let counts = digits_in_block(&merged, block);
        assert_eq!(counts[0], 0);
        for d in 1..10 {
            assert_eq!(counts[d], 1, "digit {} in block {}", d, block);
        }
    }
}

#[test]
fn build_from_completes_every_block() {
    let board = Board::from_string(PUZZLE).unwrap();
    let solution = Solution::new_from_board(&board).unwrap();
    assert_blocks_complete(&board, &solution);
}

#[test]
fn blocks_stay_complete_under_swaps() {
    let board = Board::from_string(PUZZLE).unwrap();
    let mut solution = Solution::new_from_board(&board).unwrap();
    // Cells (0,3), (1,4) and (2,4) lie in block 1 and are empty in the
    // puzzle, so the candidate owns them.
    assert_eq!(board.get(0, 3), None);
    assert_eq!(board.get(1, 4), None);
    assert_eq!(board.get(2, 4), None);
    solution.flip_spaces(0, 3, 1, 4);
    assert_blocks_complete(&board, &solution);
    solution.flip_spaces(1, 4, 2, 4);
    assert_blocks_complete(&board, &solution);
    solution.flip_spaces(0, 3, 2, 4);
    assert_blocks_complete(&board, &solution);
    for _ in 0..25 {
        solution.flip_random_spaces();
        assert_blocks_complete(&board, &solution);
    }
}

#[test]
fn swapping_twice_restores_the_grid() {
    let board = Board::from_string(PUZZLE).unwrap();
    let mut solution = Solution::new_from_board(&board).unwrap();
    let before = solution.to_clean_string();
    solution.flip_spaces(0, 3, 2, 4);
    solution.flip_spaces(0, 3, 2, 4);
    assert_eq!(solution.to_clean_string(), before);
    // The same holds when one of the cells is empty.
    solution.flip_spaces(0, 0, 0, 3);
    solution.flip_spaces(0, 0, 0, 3);
    assert_eq!(solution.to_clean_string(), before);
}

#[test]
fn no_move_in_a_sparse_block() {
    let empty = "0".repeat(81);
    let mut bare = Solution::from_board(Board::from_string(&empty).unwrap());
    assert_eq!(bare.flip_random_spaces_in_block(0, 0), Err(SudokuError::NoMove));
    assert_eq!(bare.to_clean_string(), empty);
    let mut text = String::from("5");
    text.push_str(&"0".repeat(80));
    let mut lone = Solution::from_board(Board::from_string(&text).unwrap());
    assert_eq!(lone.flip_random_spaces_in_block(0, 0), Err(SudokuError::NoMove));
    assert_eq!(lone.to_clean_string(), text);
}

#[test]
fn random_swap_in_block_permutes_two_cells() {
    let board = Board::from_string(PUZZLE).unwrap();
    let candidate = Solution::new_from_board(&board).unwrap();
    let full = board.combine(&candidate).unwrap().to_clean_string();
    let mut solution = Solution::from_board(Board::from_string(&full).unwrap());
    assert!(solution.flip_random_spaces_in_block(1, 2).is_ok());
    let after = solution.to_clean_string();
    // The multiset of every block is unchanged and at most two cells moved.
    for block in 0..9 {
        assert_eq!(digits_in_block(&full, block), digits_in_block(&after, block));
    }
    let changed = full
        .bytes()
        .zip(after.bytes())
        .filter(|(a, b)| a != b)
        .count();
    assert_eq!(changed, 2);
}

#[test]
fn empty_board_gets_a_full_candidate() {
    let empty = "0".repeat(81);
    let board = Board::from_string(&empty).unwrap();
    let solution = Solution::new_from_board(&board).unwrap();
    assert_blocks_complete(&board, &solution);
    let text = solution.to_clean_string();
    assert!(!text.contains('0'));
}
