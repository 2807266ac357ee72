use sudoku_solver::greeting;
use sudoku_solver::sudoku::{is_safe, Sudoku};

fn grid(cells: &[u8]) -> Sudoku {
    Sudoku::from_cells(cells.to_vec()).expect("valid grid")
}

fn assert_valid(s: &Sudoku) {
    for k in 0..81 {
        let v = s.cells[k];
        assert!((1..=9).contains(&v));
        let (r, c) = (k / 9, k % 9);
        for m in 0..81 {
            if m == k {
                continue;
            }
            let (r2, c2) = (m / 9, m % 9);
            let same_box = r / 3 == r2 / 3 && c / 3 == c2 / 3;
            if r == r2 || c == c2 || same_box {
                assert_ne!(s.cells[m], v, "conflict between cells {} and {}", k, m);
            }
        }
    }
}

const EASY: [u8; 81] = [
    5, 3, 0, 0, 7, 0, 0, 0, 0, //
    6, 0, 0, 1, 9, 5, 0, 0, 0, //
    0, 9, 8, 0, 0, 0, 0, 6, 0, //
    8, 0, 0, 0, 6, 0, 0, 0, 3, //
    4, 0, 0, 8, 0, 3, 0, 0, 1, //
    7, 0, 0, 0, 2, 0, 0, 0, 6, //
    0, 6, 0, 0, 0, 0, 2, 8, 0, //
    0, 0, 0, 4, 1, 9, 0, 0, 5, //
    0, 0, 0, 0, 8, 0, 0, 7, 9,
];

const EASY_SOLUTION: [u8; 81] = [
    5, 3, 4, 6, 7, 8, 9, 1, 2, //
    6, 7, 2, 1, 9, 5, 3, 4, 8, //
    1, 9, 8, 3, 4, 2, 5, 6, 7, //
    8, 5, 9, 7, 6, 1, 4, 2, 3, //
    4, 2, 6, 8, 5, 3, 7, 9, 1, //
    7, 1, 3, 9, 2, 4, 8, 5, 6, //
    9, 6, 1, 5, 3, 7, 2, 8, 4, //
    2, 8, 7, 4, 1, 9, 6, 3, 5, //
    3, 4, 5, 2, 8, 6, 1, 7, 9,
];

#[test]
fn solves_easy_puzzle_to_unique_solution() {
    let mut s = grid(&EASY);
    assert!(s.solve());
    assert_eq!(s.cells, EASY_SOLUTION.to_vec());
    assert_valid(&s);
}

#[test]
fn solved_result_keeps_prefilled_cells() {
    let mut s = grid(&EASY);
    assert!(s.solve());
    for k in 0..81 {
        if EASY[k] != 0 {
            assert_eq!(s.cells[k], EASY[k]);
        }
    }
}

#[test]
fn solve_is_deterministic_across_runs() {
    let mut a = grid(&EASY);
    let mut b = grid(&EASY);
    assert!(a.solve());
    assert!(b.solve());
    assert_eq!(a.cells, b.cells);
}

#[test]
fn empty_grid_fills_deterministically() {
    let mut s = grid(&[0u8; 81]);
    assert!(s.solve());
    assert_valid(&s);
    let expected: [u8; 81] = [
        1, 2, 3, 4, 5, 6, 7, 8, 9, //
        4, 5, 6, 7, 8, 9, 1, 2, 3, //
        7, 8, 9, 1, 2, 3, 4, 5, 6, //
        2, 1, 4, 3, 6, 5, 8, 9, 7, //
        3, 6, 5, 8, 9, 7, 2, 1, 4, //
        8, 9, 7, 2, 1, 4, 3, 6, 5, //
        5, 3, 1, 6, 4, 2, 9, 7, 8, //
        6, 4, 2, 9, 7, 8, 5, 3, 1, //
        9, 7, 8, 5, 3, 1, 6, 4, 2,
    ];
    assert_eq!(s.cells, expected.to_vec());
}

#[test]
fn underconstrained_puzzle_follows_scan_order() {
    // The easy puzzle with its first two rows erased admits several
    // completions; the first-empty-cell, ascending-candidate search must
    // reproduce this exact one.
    let mut cells = EASY;
    for k in 0..18 {
        cells[k] = 0;
    }
    let expected: [u8; 81] = [
        1, 2, 3, 5, 7, 6, 4, 9, 8, //
        6, 7, 4, 9, 3, 8, 5, 1, 2, //
        5, 9, 8, 2, 4, 1, 3, 6, 7, //
        8, 1, 2, 7, 6, 4, 9, 5, 3, //
        4, 5, 6, 8, 9, 3, 7, 2, 1, //
        7, 3, 9, 1, 2, 5, 8, 4, 6, //
        9, 6, 1, 3, 5, 7, 2, 8, 4, //
        2, 8, 7, 4, 1, 9, 6, 3, 5, //
        3, 4, 5, 6, 8, 2, 1, 7, 9,
    ];
    let mut s = grid(&cells);
    assert!(s.solve());
    assert_eq!(s.cells, expected.to_vec());
}

#[test]
fn solved_input_returns_immediately_unchanged() {
    let mut s = grid(&EASY_SOLUTION);
    assert!(s.solve());
    assert_eq!(s.cells, EASY_SOLUTION.to_vec());
}

#[test]
fn row_conflict_fails_and_restores_grid() {
    // row 0 of the easy puzzle holds a 3; a second 3 in that row forces failure
    let mut cells = EASY;
    cells[2] = 3;
    let mut s = grid(&cells);
    assert!(!s.solve());
    assert_eq!(s.cells, cells.to_vec());
}

#[test]
fn column_conflict_fails() {
    // column 0 of the easy puzzle holds a 5; a second 5 in that column forces failure
    let mut cells = EASY;
    cells[9 * 7] = 5;
    let mut s = grid(&cells);
    assert!(!s.solve());
    assert_eq!(s.cells, cells.to_vec());
}

#[test]
fn box_conflict_fails() {
    // the top-left box of the easy puzzle holds an 8; a second 8 in that box,
    // in a different row and column, forces failure
    let mut cells = EASY;
    cells[10] = 8;
    let mut s = grid(&cells);
    assert!(!s.solve());
    assert_eq!(s.cells, cells.to_vec());
}

#[test]
fn is_safe_sees_row_column_and_box() {
    let mut cells = [0u8; 81];
    cells[0] = 4; // row 0, col 0
    let s = grid(&cells);
    assert!(!is_safe(&s, 0, 8, 4)); // same row
    assert!(!is_safe(&s, 8, 0, 4)); // same column
    assert!(!is_safe(&s, 1, 1, 4)); // same box
    assert!(is_safe(&s, 4, 4, 4)); // unrelated cell
    assert!(is_safe(&s, 0, 8, 5)); // different digit
}

#[test]
fn from_cells_rejects_bad_input() {
    assert!(Sudoku::from_cells(vec![0u8; 80]).is_none());
    assert!(Sudoku::from_cells(vec![0u8; 82]).is_none());
    let mut cells = vec![0u8; 81];
    cells[40] = 10;
    assert!(Sudoku::from_cells(cells).is_none());
    assert!(Sudoku::from_cells(vec![0u8; 81]).is_some());
}

#[test]
fn cell_reads_row_major() {
    let mut cells = [0u8; 81];
    cells[9 * 3 + 7] = 6;
    let s = grid(&cells);
    assert_eq!(s.cell(3, 7), 6);
    assert_eq!(s.cell(0, 0), 0);
}

#[test]
fn greeting_is_hello_world() {
    assert_eq!(greeting(), "Hello world");
}
