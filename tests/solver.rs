use sudoku_solver::grid::{InvalidInput, SudokuSolver};

const SOLVED: &str = "534678912\
672195348\
198342567\
859761423\
426853791\
713924856\
961537284\
287419635\
345286179";

const HARDEST: &str = "800000000\
003600000\
070090200\
050007000\
000045700\
000100030\
001000068\
008500010\
090000400";

fn digits(s: &str) -> Vec<u8> {
    s.bytes().map(|c| c - b'0').collect()
}

fn board(s: &str) -> SudokuSolver {
    match SudokuSolver::from_values(3, digits(s)) {
        Ok(b) => b,
        Err(e) => panic!("refused: {:?}", e),
    }
}

fn is_valid_solution(v: &[u8], b: usize) -> bool {
    let n = b * b;
    if v.len() != n * n {
        return false;
    }
    let mut units: Vec<Vec<usize>> = Vec::new();
    for r in 0..n {
        units.push((0..n).map(|c| r * n + c).collect());
    }
    for c in 0..n {
        units.push((0..n).map(|r| r * n + c).collect());
    }
    for br in 0..b {
        for bc in 0..b {
            units.push((0..n).map(|k| (br * b + k / b) * n + bc * b + k % b).collect());
        }
    }
    units.iter().all(|u| {
        let mut seen = vec![false; n + 1];
        u.iter().all(|&i| {
            let d = v[i] as usize;
            if d == 0 || d > n || seen[d] {
                false
            } else {
                seen[d] = true;
                true
            }
        })
    })
}

#[test]
fn solved_grid_is_kept_with_no_trials() {
    let mut s = board(SOLVED);
    assert!(s.solve());
    assert_eq!(s.num_calls(), 0);
    assert_eq!(s.values(), digits(SOLVED));
}

#[test]
fn rerun_on_own_output_takes_no_trials() {
    let mut s = board(HARDEST);
    assert!(s.solve());
    let out = s.values();
    let mut again = SudokuSolver::from_values(3, out.clone()).unwrap();
    assert!(again.solve());
    assert_eq!(again.num_calls(), 0);
    assert_eq!(again.values(), out);
}

#[test]
fn single_blank_cell_is_filled_in_one_trial() {
    let mut v = digits(SOLVED);
    v[40] = 0;
    let mut s = SudokuSolver::from_values(3, v).unwrap();
    assert!(s.solve());
    assert_eq!(s.num_calls(), 0);
    assert_eq!(s.value(4, 4), 5);
    assert_eq!(s.values(), digits(SOLVED));
}

#[test]
fn hardest_puzzle_is_solved_validly() {
    let mut s = board(HARDEST);
    assert!(s.solve());
    let out = s.values();
    assert!(is_valid_solution(&out, 3));
    let given = digits(HARDEST);
    for i in 0..81 {
        if given[i] != 0 {
            assert_eq!(out[i], given[i]);
        }
    }
    assert!(s.num_calls() > 0);
}

#[test]
fn search_is_reproducible() {
    let mut a = board(HARDEST);
    let mut b = board(HARDEST);
    assert!(a.solve());
    assert!(b.solve());
    assert_eq!(a.num_calls(), b.num_calls());
    assert_eq!(a.values(), b.values());
}

#[test]
fn empty_cells_do_not_increase() {
    let given = digits(HARDEST);
    let before = given.iter().filter(|&&d| d == 0).count();
    let mut s = board(HARDEST);
    assert!(s.solve());
    let after = s.values().iter().filter(|&&d| d == 0).count();
    assert!(after <= before);
    assert_eq!(after, 0);
}

#[test]
fn duplicate_in_row_is_refused() {
    let mut v = vec![0u8; 81];
    v[0] = 5;
    v[7] = 5;
    assert_eq!(SudokuSolver::from_values(3, v).err(), Some(InvalidInput::Conflict));
}

#[test]
fn duplicate_in_column_is_refused() {
    let mut v = vec![0u8; 81];
    v[2] = 4;
    v[9 * 8 + 2] = 4;
    assert_eq!(SudokuSolver::from_values(3, v).err(), Some(InvalidInput::Conflict));
}

#[test]
fn duplicate_in_block_is_refused() {
    let mut v = vec![0u8; 81];
    v[0] = 7;
    v[10] = 7;
    assert_eq!(SudokuSolver::from_values(3, v).err(), Some(InvalidInput::Conflict));
}

#[test]
fn bad_block_size_is_refused() {
    assert_eq!(SudokuSolver::from_values(0, vec![]).err(), Some(InvalidInput::BadBlockSize));
    assert_eq!(SudokuSolver::from_values(16, vec![0u8; 65536]).err(), Some(InvalidInput::BadBlockSize));
}

#[test]
fn wrong_cell_count_is_refused() {
    assert_eq!(SudokuSolver::from_values(3, vec![0u8; 80]).err(), Some(InvalidInput::WrongDimensions));
    assert_eq!(SudokuSolver::from_values(2, vec![0u8; 17]).err(), Some(InvalidInput::WrongDimensions));
}

#[test]
fn digit_above_side_is_refused() {
    let mut v = vec![0u8; 16];
    v[3] = 5;
    assert_eq!(SudokuSolver::from_values(2, v).err(), Some(InvalidInput::DigitOutOfRange));
}

#[test]
fn unsolvable_board_is_left_unchanged() {
    let v: Vec<u8> = vec![1, 2, 0, 0, 0, 0, 3, 0, 0, 0, 4, 0, 0, 0, 0, 0];
    let mut s = SudokuSolver::from_values(2, v.clone()).unwrap();
    assert!(!s.solve());
    assert_eq!(s.values(), v);
}

#[test]
fn partial_four_by_four_is_solved() {
    let v: Vec<u8> = vec![0, 0, 3, 4, 0, 0, 0, 0, 0, 0, 0, 0, 0, 0, 0, 0];
    let mut s = SudokuSolver::from_values(2, v.clone()).unwrap();
    assert!(s.solve());
    assert!(is_valid_solution(&s.values(), 2));
}

#[test]
fn empty_four_by_four_is_solved() {
    let mut s = SudokuSolver::new(2);
    assert_eq!(s.side_len(), 4);
    assert_eq!(s.block_size(), 2);
    assert!(!s.is_complete());
    assert!(s.solve());
    assert!(s.is_complete());
    assert!(is_valid_solution(&s.values(), 2));
    assert_eq!(s.num_calls(), 0);
    assert_eq!(s.values(), vec![1, 2, 3, 4, 3, 4, 1, 2, 2, 1, 4, 3, 4, 3, 2, 1]);
}

#[test]
fn empty_nine_by_nine_is_solved() {
    let mut s = SudokuSolver::new(3);
    assert!(s.solve());
    assert!(is_valid_solution(&s.values(), 3));
}

#[test]
fn legality_checks_row_column_and_block() {
    let s = board(HARDEST);
    // Row 0 holds 8.
    assert!(!s.check_matrix(0, 5, 8));
    // Column 2 holds 3 (row 1).
    assert!(!s.check_matrix(4, 2, 3));
    // The top-left block holds 7 (row 2, column 1).
    assert!(!s.check_matrix(0, 2, 7));
    // 1 is nowhere in row 0, column 1 or the top-left block.
    assert!(s.check_matrix(0, 1, 1));
}

#[test]
fn place_and_unplace_restore_the_cell() {
    let mut s = SudokuSolver::new(3);
    s.place(2, 3, 6);
    assert_eq!(s.value(2, 3), 6);
    assert!(!s.check_matrix(2, 8, 6));
    s.unplace(2, 3);
    assert_eq!(s.value(2, 3), 0);
    assert!(s.check_matrix(2, 8, 6));
}

#[test]
fn setup_flags_exactly_the_legal_values() {
    let mut s = board(HARDEST);
    s.setup();
    for num in 1..=9u8 {
        assert_eq!(s.is_candidate(0, 1, num), s.check_matrix(0, 1, num));
    }
    assert!(!s.is_candidate(0, 1, 8));
    assert!(s.is_candidate(0, 1, 1));
}

#[test]
fn completeness_is_reported() {
    assert!(board(SOLVED).is_complete());
    assert!(!board(HARDEST).is_complete());
}
