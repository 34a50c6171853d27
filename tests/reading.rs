use sudoku_solver::grid::{InvalidInput, SudokuSolver};

const HARDEST_TEXT: &str = "hardest\n\
800000000\n\
003600000\n\
070090200\n\
050007000\n\
000045700\n\
000100030\n\
001000068\n\
008500010\n\
090000400\n";

fn read(block: usize, s: &str) -> Result<SudokuSolver, InvalidInput> {
    SudokuSolver::read_grid(block, &s.as_bytes().to_vec())
}

#[test]
fn reads_header_and_rows() {
    let s = read(3, HARDEST_TEXT).unwrap();
    assert_eq!(s.value(0, 0), 8);
    assert_eq!(s.value(1, 2), 3);
    assert_eq!(s.value(1, 3), 6);
    assert_eq!(s.value(8, 6), 4);
    assert_eq!(s.value(8, 8), 0);
    assert_eq!(s.num_calls(), 0);
}

#[test]
fn last_newline_is_optional() {
    let t = HARDEST_TEXT.trim_end();
    let a = read(3, t).unwrap();
    let b = read(3, HARDEST_TEXT).unwrap();
    assert_eq!(a.values(), b.values());
}

#[test]
fn read_board_is_solved() {
    let mut s = read(3, HARDEST_TEXT).unwrap();
    assert!(s.solve());
    assert!(s.is_complete());
}

#[test]
fn four_by_four_text() {
    let s = read(2, "x\n1200\n0030\n0000\n0001\n").unwrap();
    assert_eq!(s.values(), vec![1, 2, 0, 0, 0, 0, 3, 0, 0, 0, 0, 0, 0, 0, 0, 1]);
}

#[test]
fn text_without_header_newline_is_refused() {
    assert_eq!(read(2, "1200").err(), Some(InvalidInput::WrongDimensions));
}

#[test]
fn short_line_is_refused() {
    assert_eq!(read(2, "x\n120\n00300\n0000\n0001\n").err(), Some(InvalidInput::WrongDimensions));
}

#[test]
fn missing_line_is_refused() {
    assert_eq!(read(2, "x\n1200\n0030\n0000\n").err(), Some(InvalidInput::WrongDimensions));
}

#[test]
fn non_digit_is_refused() {
    assert_eq!(read(2, "x\n1200\n0.30\n0000\n0001\n").err(), Some(InvalidInput::BadSymbol));
}

#[test]
fn digit_too_large_in_text_is_refused() {
    assert_eq!(read(2, "x\n1200\n0050\n0000\n0001\n").err(), Some(InvalidInput::DigitOutOfRange));
}

#[test]
fn repeated_digit_in_text_is_refused() {
    assert_eq!(read(2, "x\n1201\n0030\n0000\n0000\n").err(), Some(InvalidInput::Conflict));
}

#[test]
fn bad_block_size_in_text_is_refused() {
    assert_eq!(read(0, "x\n").err(), Some(InvalidInput::BadBlockSize));
}

#[test]
fn crlf_line_endings_are_refused() {
    assert_eq!(
        read(2, "x\r\n1200\r\n0030\r\n0000\r\n0001\r\n").err(),
        Some(InvalidInput::WrongDimensions)
    );
}

#[test]
fn new_board_has_no_candidates() {
    let s = SudokuSolver::new(2);
    for r in 0..4 {
        for c in 0..4 {
            for v in 1..=4u8 {
                assert!(!s.is_candidate(r, c, v));
            }
        }
    }
}
