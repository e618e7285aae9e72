use sudoku::sudoku_definition::{Field, Sudoku};
use sudoku::sudoku_parsing::{parse_raw_sudoku, ParseError};
use sudoku::sudoku_solving::{build_initial_options, solve, sudoku_options_solvable};

/// A 9x9 grid as nested vectors from a flat row-major array.
fn grid_of(flat: [u8; 81]) -> Vec<Vec<u8>> {
    let mut grid: Vec<Vec<u8>> = Vec::new();
    for r in 0..9 {
        let mut row: Vec<u8> = Vec::new();
        for c in 0..9 {
            row.push(flat[r * 9 + c]);
        }
        grid.push(row);
    }
    grid
}

fn board_of(flat: [u8; 81]) -> Sudoku {
    Sudoku::new(grid_of(flat))
}

fn digits_flat(s: &Sudoku) -> Vec<u8> {
    let mut out: Vec<u8> = Vec::new();
    for row in s.to_digits() {
        for d in row {
            out.push(d);
        }
    }
    out
}

/// Every row, column, and box of a fully fixed grid holds each digit
/// 1..=9 exactly once.
fn assert_groups_complete(flat: &[u8]) {
    assert_eq!(flat.len(), 81);
    for g in 0..9 {
        let mut row_seen = [false; 10];
        let mut col_seen = [false; 10];
        let mut box_seen = [false; 10];
        for k in 0..9 {
            let row_d = flat[g * 9 + k] as usize;
            let col_d = flat[k * 9 + g] as usize;
            let box_d = flat[((g / 3) * 3 + k / 3) * 9 + (g % 3) * 3 + k % 3] as usize;
            assert!((1..=9).contains(&row_d));
            assert!((1..=9).contains(&col_d));
            assert!((1..=9).contains(&box_d));
            assert!(!row_seen[row_d], "digit repeated in row {}", g);
            assert!(!col_seen[col_d], "digit repeated in column {}", g);
            assert!(!box_seen[box_d], "digit repeated in box {}", g);
            row_seen[row_d] = true;
            col_seen[col_d] = true;
            box_seen[box_d] = true;
        }
    }
}

const CLASSIC: [u8; 81] = [
    0, 0, 8, 7, 0, 0, 2, 4, 0, //
    3, 7, 0, 1, 0, 2, 8, 0, 0, //
    0, 0, 0, 6, 8, 0, 3, 0, 0, //
    0, 1, 0, 3, 0, 8, 0, 0, 5, //
    5, 0, 7, 0, 1, 0, 6, 0, 0, //
    8, 0, 9, 5, 0, 0, 0, 1, 0, //
    0, 0, 3, 8, 6, 0, 0, 0, 0, //
    0, 0, 2, 0, 4, 5, 0, 3, 0, //
    4, 9, 0, 2, 3, 0, 5, 0, 8, //
];

/// A complete grid satisfying every constraint.
const COMPLETE: [u8; 81] = [
    1, 2, 3, 4, 5, 6, 7, 8, 9, //
    4, 5, 6, 7, 8, 9, 1, 2, 3, //
    7, 8, 9, 1, 2, 3, 4, 5, 6, //
    2, 3, 1, 5, 6, 4, 8, 9, 7, //
    5, 6, 4, 8, 9, 7, 2, 3, 1, //
    8, 9, 7, 2, 3, 1, 5, 6, 4, //
    3, 1, 2, 6, 4, 5, 9, 7, 8, //
    6, 4, 5, 9, 7, 8, 3, 1, 2, //
    9, 7, 8, 3, 1, 2, 6, 4, 5, //
];

#[test]
fn parse_reports_missing_digits() {
    let r = parse_raw_sudoku(vec![1, 2, 3]);
    assert_eq!(r.unwrap_err(), ParseError::MissingDigits(78));
}

#[test]
fn parse_reports_too_many_digits() {
    let r = parse_raw_sudoku(vec![0; 90]);
    assert_eq!(r.unwrap_err(), ParseError::TooManyDigits(90));
}

#[test]
fn parse_reports_digit_too_large() {
    let mut raw = vec![0u8; 81];
    raw[40] = 10;
    let r = parse_raw_sudoku(raw);
    assert_eq!(r.unwrap_err(), ParseError::DigitTooLarge);
}

#[test]
fn parse_lays_out_rows() {
    let raw: Vec<u8> = CLASSIC.to_vec();
    let grid = parse_raw_sudoku(raw).unwrap();
    assert_eq!(grid.len(), 9);
    for r in 0..9 {
        assert_eq!(grid[r].len(), 9);
        for c in 0..9 {
            assert_eq!(grid[r][c], CLASSIC[r * 9 + c]);
        }
    }
}

#[test]
fn field_equals_digit_only_when_filled() {
    assert!(Field::Filled(3).eq_digit(3));
    assert!(!Field::Filled(3).eq_digit(4));
    assert!(!Field::Empty.eq_digit(3));
    assert!(!Field::Options(vec![3]).eq_digit(3));
}

#[test]
fn validator_accepts_empty_board() {
    let board = board_of([0; 81]);
    assert!(sudoku_options_solvable(&board));
}

#[test]
fn validator_rejects_duplicate_in_row() {
    let mut flat = [0u8; 81];
    flat[0] = 5;
    flat[1] = 5;
    let board = board_of(flat);
    assert!(!sudoku_options_solvable(&board));
}

#[test]
fn validator_rejects_duplicate_in_column() {
    let mut flat = [0u8; 81];
    flat[2] = 7;
    flat[2 + 8 * 9] = 7;
    let board = board_of(flat);
    assert!(!sudoku_options_solvable(&board));
}

#[test]
fn validator_rejects_duplicate_in_box() {
    let mut flat = [0u8; 81];
    flat[0] = 9;
    flat[1 * 9 + 1] = 9;
    let board = board_of(flat);
    assert!(!sudoku_options_solvable(&board));
}

#[test]
fn validator_is_idempotent() {
    let valid = board_of(CLASSIC);
    assert_eq!(sudoku_options_solvable(&valid), sudoku_options_solvable(&valid));
    assert!(sudoku_options_solvable(&valid));

    let mut flat = [0u8; 81];
    flat[0] = 5;
    flat[1] = 5;
    let invalid = board_of(flat);
    assert_eq!(sudoku_options_solvable(&invalid), sudoku_options_solvable(&invalid));
    assert!(!sudoku_options_solvable(&invalid));
}

#[test]
fn initializer_narrows_to_consistent_digits() {
    let mut flat = [0u8; 81];
    flat[0] = 5;
    let mut board = board_of(flat);
    build_initial_options(&mut board);
    // the filled cell is untouched
    assert!(matches!(board.0[0], Field::Filled(5)));
    // a row peer loses 5
    match &board.0[1] {
        Field::Options(opts) => assert_eq!(opts, &vec![1, 2, 3, 4, 6, 7, 8, 9]),
        other => panic!("expected candidates, found {:?}", other),
    }
    // a column peer loses 5
    match &board.0[5 * 9] {
        Field::Options(opts) => assert_eq!(opts, &vec![1, 2, 3, 4, 6, 7, 8, 9]),
        other => panic!("expected candidates, found {:?}", other),
    }
    // a box peer loses 5
    match &board.0[1 * 9 + 1] {
        Field::Options(opts) => assert_eq!(opts, &vec![1, 2, 3, 4, 6, 7, 8, 9]),
        other => panic!("expected candidates, found {:?}", other),
    }
    // an unrelated cell keeps every digit
    match &board.0[8 * 9 + 8] {
        Field::Options(opts) => assert_eq!(opts, &vec![1, 2, 3, 4, 5, 6, 7, 8, 9]),
        other => panic!("expected candidates, found {:?}", other),
    }
}

#[test]
fn empty_board_is_solvable() {
    let mut board = board_of([0; 81]);
    assert!(sudoku_options_solvable(&board));
    build_initial_options(&mut board);
    let solved = solve(board).expect("the empty board has completions");
    assert!(sudoku_options_solvable(&solved));
    let flat = digits_flat(&solved);
    assert_groups_complete(&flat);
}

#[test]
fn duplicate_fixed_digits_yield_no_solution() {
    // two identical fixed digits in row 0 (and nothing else wrong):
    // overwrite the leading 1 with a second 2, and blank the cell at
    // (3, 0) whose only remaining candidate that duplicate removes
    let mut flat = COMPLETE;
    flat[0] = 2;
    flat[3 * 9] = 0;
    let mut board = board_of(flat);
    // the contradiction is reported, but search is still attempted
    assert!(!sudoku_options_solvable(&board));
    build_initial_options(&mut board);
    assert!(solve(board).is_none());
}

#[test]
fn classic_puzzle_solves() {
    let mut board = board_of(CLASSIC);
    assert!(sudoku_options_solvable(&board));
    build_initial_options(&mut board);
    let solved = solve(board).expect("the classic puzzle has a solution");
    assert!(sudoku_options_solvable(&solved));
    let flat = digits_flat(&solved);
    assert_groups_complete(&flat);
    // the given clues survive
    for i in 0..81 {
        if CLASSIC[i] != 0 {
            assert_eq!(flat[i], CLASSIC[i]);
        }
    }
    // the unique completion, pinned digit by digit
    let expected: [u8; 81] = [
        1, 6, 8, 7, 5, 3, 2, 4, 9, //
        3, 7, 4, 1, 9, 2, 8, 5, 6, //
        9, 2, 5, 6, 8, 4, 3, 7, 1, //
        2, 1, 6, 3, 7, 8, 4, 9, 5, //
        5, 3, 7, 4, 1, 9, 6, 8, 2, //
        8, 4, 9, 5, 2, 6, 7, 1, 3, //
        7, 5, 3, 8, 6, 1, 9, 2, 4, //
        6, 8, 2, 9, 4, 5, 1, 3, 7, //
        4, 9, 1, 2, 3, 7, 5, 6, 8, //
    ];
    assert_eq!(flat, expected.to_vec());
}

#[test]
fn solver_is_deterministic() {
    let mut first = board_of(CLASSIC);
    build_initial_options(&mut first);
    let mut second = board_of(CLASSIC);
    build_initial_options(&mut second);
    let a = solve(first).expect("solvable");
    let b = solve(second).expect("solvable");
    assert_eq!(digits_flat(&a), digits_flat(&b));
}

#[test]
fn full_board_passes_through() {
    let board = board_of(COMPLETE);
    assert!(sudoku_options_solvable(&board));
    // no candidate cells: the board comes back as it is, with no search
    let solved = solve(board).expect("a full board is already solved");
    let flat = digits_flat(&solved);
    assert_eq!(flat, COMPLETE.to_vec());
    assert_groups_complete(&flat);
}

#[test]
fn full_invalid_board_still_passes_through() {
    // the engine does not re-check fixed digits when nothing is left to fill
    let mut flat = COMPLETE;
    flat[0] = 2; // clashes with the 2 later in row 0
    let board = board_of(flat);
    assert!(!sudoku_options_solvable(&board));
    let solved = solve(board).expect("no candidate cells, so the board is returned");
    assert_eq!(digits_flat(&solved), flat.to_vec());
}

#[test]
fn board_digits_round_trip() {
    let board = board_of(CLASSIC);
    assert_eq!(digits_flat(&board), CLASSIC.to_vec());
}

