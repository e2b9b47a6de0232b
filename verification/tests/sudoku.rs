use sudoku_solver::sudoku::{
    blanks, horizontal_slice, is_valid_puzzle, slice_has_unique_digits, solve, square_slice,
    vertical_slice, Puzzle,
};

const SLICE_TEST_1: Puzzle = [
    [0, 0, 0, 1, 1, 1, 2, 2, 2],
    [0, 0, 0, 1, 1, 1, 2, 2, 2],
    [0, 0, 0, 1, 1, 1, 2, 2, 2],
    [3, 3, 3, 4, 4, 4, 5, 5, 5],
    [3, 3, 3, 4, 4, 4, 5, 5, 5],
    [3, 3, 3, 4, 4, 4, 5, 5, 5],
    [6, 6, 6, 7, 7, 7, 8, 8, 8],
    [6, 6, 6, 7, 7, 7, 8, 8, 8],
    [6, 6, 6, 7, 7, 7, 8, 8, 8],
];
const SLICE_TEST_2: Puzzle = [
    [1, 2, 3, 1, 2, 3, 1, 2, 3],
    [4, 5, 6, 4, 5, 6, 4, 5, 6],
    [7, 8, 9, 7, 8, 9, 7, 8, 9],
    [1, 2, 3, 1, 2, 3, 1, 2, 3],
    [4, 5, 6, 4, 5, 6, 4, 5, 6],
    [7, 8, 9, 7, 8, 9, 7, 8, 9],
    [1, 2, 3, 1, 2, 3, 1, 2, 3],
    [4, 5, 6, 4, 5, 6, 4, 5, 6],
    [7, 8, 9, 7, 8, 9, 7, 8, 9],
];

const CLASSIC: Puzzle = [
    [5, 3, 0, 0, 7, 0, 0, 0, 0],
    [6, 0, 0, 1, 9, 5, 0, 0, 0],
    [9, 8, 0, 0, 0, 0, 0, 6, 0],
    [8, 0, 0, 0, 6, 0, 0, 0, 3],
    [4, 0, 0, 8, 0, 3, 0, 0, 1],
    [7, 0, 0, 0, 2, 0, 0, 0, 6],
    [0, 6, 0, 0, 0, 0, 2, 8, 0],
    [0, 0, 0, 4, 1, 9, 0, 0, 5],
    [0, 0, 0, 0, 8, 0, 0, 7, 9],
];

const CLASSIC_SOLUTION: Puzzle = [
    [5, 3, 4, 6, 7, 8, 9, 1, 2],
    [6, 2, 7, 1, 9, 5, 3, 4, 8],
    [9, 8, 1, 3, 4, 2, 5, 6, 7],
    [8, 5, 2, 7, 6, 1, 4, 9, 3],
    [4, 9, 6, 8, 5, 3, 7, 2, 1],
    [7, 1, 3, 9, 2, 4, 8, 5, 6],
    [1, 6, 9, 5, 3, 7, 2, 8, 4],
    [2, 7, 8, 4, 1, 9, 6, 3, 5],
    [3, 4, 5, 2, 8, 6, 1, 7, 9],
];

/// Every row, column, and box of a complete grid holds each digit 1-9
/// exactly once.
fn assert_full_and_valid(grid: Puzzle) {
    for index in 0..9 {
        for slice in [
            horizontal_slice(grid, index),
            vertical_slice(grid, index),
            square_slice(grid, index),
        ] {
            let mut counts = [0usize; 10];
            for digit in slice {
                counts[digit as usize] += 1;
            }
            assert_eq!(counts[0], 0);
            for digit in 1..10 {
                assert_eq!(counts[digit], 1);
            }
        }
    }
}

#[test]
fn check_horizontal_slice() {
    assert_eq!(
        horizontal_slice(SLICE_TEST_1, 0),
        [0, 0, 0, 1, 1, 1, 2, 2, 2]
    );
    assert_eq!(
        horizontal_slice(SLICE_TEST_1, 4),
        [3, 3, 3, 4, 4, 4, 5, 5, 5]
    );
    assert_eq!(
        horizontal_slice(SLICE_TEST_1, 8),
        [6, 6, 6, 7, 7, 7, 8, 8, 8]
    );

    assert_eq!(
        horizontal_slice(SLICE_TEST_1, 1),
        horizontal_slice(SLICE_TEST_1, 2)
    );
    assert_eq!(
        horizontal_slice(SLICE_TEST_1, 3),
        horizontal_slice(SLICE_TEST_1, 5)
    );
    assert_eq!(
        horizontal_slice(SLICE_TEST_1, 6),
        horizontal_slice(SLICE_TEST_1, 7)
    );

    for index in [0, 3, 6] {
        assert_eq!(
            horizontal_slice(SLICE_TEST_2, index),
            [1, 2, 3, 1, 2, 3, 1, 2, 3]
        );
    }
    for index in [1, 4, 7] {
        assert_eq!(
            horizontal_slice(SLICE_TEST_2, index),
            [4, 5, 6, 4, 5, 6, 4, 5, 6]
        );
    }
    for index in [2, 5, 8] {
        assert_eq!(
            horizontal_slice(SLICE_TEST_2, index),
            [7, 8, 9, 7, 8, 9, 7, 8, 9]
        );
    }
}

#[test]
fn check_vertical_slice() {
    assert_eq!(vertical_slice(SLICE_TEST_1, 0), [0, 0, 0, 3, 3, 3, 6, 6, 6]);
    assert_eq!(vertical_slice(SLICE_TEST_1, 4), [1, 1, 1, 4, 4, 4, 7, 7, 7]);
    assert_eq!(vertical_slice(SLICE_TEST_1, 8), [2, 2, 2, 5, 5, 5, 8, 8, 8]);

    assert_eq!(
        vertical_slice(SLICE_TEST_1, 1),
        vertical_slice(SLICE_TEST_1, 2)
    );
    assert_eq!(
        vertical_slice(SLICE_TEST_1, 3),
        vertical_slice(SLICE_TEST_1, 5)
    );
    assert_eq!(
        vertical_slice(SLICE_TEST_1, 6),
        vertical_slice(SLICE_TEST_1, 7)
    );

    for index in [0, 3, 6] {
        assert_eq!(
            vertical_slice(SLICE_TEST_2, index),
            [1, 4, 7, 1, 4, 7, 1, 4, 7]
        );
    }
    for index in [1, 4, 7] {
        assert_eq!(
            vertical_slice(SLICE_TEST_2, index),
            [2, 5, 8, 2, 5, 8, 2, 5, 8]
        );
    }
    for index in [2, 5, 8] {
        assert_eq!(
            vertical_slice(SLICE_TEST_2, index),
            [3, 6, 9, 3, 6, 9, 3, 6, 9]
        );
    }
}

#[test]
fn check_square_slice() {
    for index in 0..9 {
        assert!(square_slice(SLICE_TEST_1, index)
            .iter()
            .all(|digit| *digit == index as u8));
    }

    for index in 0..9 {
        assert_eq!(
            square_slice(SLICE_TEST_2, index),
            [1, 2, 3, 4, 5, 6, 7, 8, 9]
        );
    }
}

#[test]
fn check_slice_uniqueness() {
    assert!(slice_has_unique_digits([1, 2, 3, 4, 5, 6, 7, 8, 9]));
    assert!(slice_has_unique_digits([9, 8, 7, 6, 5, 4, 3, 2, 1]));

    assert!(slice_has_unique_digits([0, 2, 0, 4, 0, 6, 0, 8, 0]));
    assert!(slice_has_unique_digits([9, 0, 7, 0, 5, 0, 3, 0, 1]));

    assert!(!slice_has_unique_digits([1, 1, 2, 2, 3, 3, 4, 4, 5]));
    assert!(!slice_has_unique_digits([9, 8, 7, 6, 5, 4, 3, 2, 2]));

    assert!(slice_has_unique_digits([0; 9]));
}

#[test]
fn forced_single_blank() {
    let mut puzzle = CLASSIC_SOLUTION;
    puzzle[0][2] = 0;
    let solution = solve(puzzle).expect("a single forced blank must be solvable");
    assert_eq!(solution, CLASSIC_SOLUTION);
}

#[test]
fn solves_classic_puzzle() {
    let solution = solve(CLASSIC).expect("the classic puzzle has a solution");
    assert_eq!(solution, CLASSIC_SOLUTION);
    assert_full_and_valid(solution);
}

#[test]
fn keeps_given_digits() {
    let solution = solve(CLASSIC).expect("the classic puzzle has a solution");
    for row in 0..9 {
        for col in 0..9 {
            if CLASSIC[row][col] != 0 {
                assert_eq!(solution[row][col], CLASSIC[row][col]);
            }
        }
    }
}

#[test]
fn rejects_duplicate_in_row() {
    let mut puzzle = CLASSIC;
    puzzle[0][8] = 5;
    assert!(!is_valid_puzzle(puzzle));
    assert_eq!(solve(puzzle), None);
}

#[test]
fn rejects_duplicate_in_column() {
    let mut puzzle = CLASSIC;
    puzzle[8][0] = 5;
    assert_eq!(solve(puzzle), None);
}

#[test]
fn rejects_duplicate_in_square() {
    let mut puzzle = CLASSIC;
    puzzle[1][1] = 5;
    assert_eq!(solve(puzzle), None);
}

#[test]
fn complete_grid_returned_unchanged() {
    assert_eq!(solve(CLASSIC_SOLUTION), Some(CLASSIC_SOLUTION));
}

#[test]
fn solves_empty_grid() {
    let solution = solve([[0; 9]; 9]).expect("the empty grid has solutions");
    assert_full_and_valid(solution);
    // Blanks are filled in row-major order with the least fitting digit
    // first, so the first rows of the returned grid are forced.
    assert_eq!(solution[0], [1, 2, 3, 4, 5, 6, 7, 8, 9]);
    assert_eq!(solution[1], [4, 5, 6, 7, 8, 9, 1, 2, 3]);
    assert_eq!(solution[2], [7, 8, 9, 1, 2, 3, 4, 5, 6]);
}

#[test]
fn solve_is_deterministic() {
    assert_eq!(solve(CLASSIC), solve(CLASSIC));
    assert_eq!(solve([[0; 9]; 9]), solve([[0; 9]; 9]));
}

#[test]
fn validator_accepts_partial_and_complete_grids() {
    assert!(is_valid_puzzle(CLASSIC));
    assert!(is_valid_puzzle(CLASSIC_SOLUTION));
    assert!(is_valid_puzzle([[0; 9]; 9]));
    assert!(!is_valid_puzzle(SLICE_TEST_2));
}

#[test]
fn blanks_in_row_major_order() {
    assert_eq!(blanks(CLASSIC_SOLUTION), vec![]);
    let found = blanks(CLASSIC);
    assert_eq!(found.len(), 51);
    assert_eq!(found[0], (0, 2));
    assert_eq!(found[1], (0, 3));
    assert_eq!(found[2], (0, 5));
    assert!(found.windows(2).all(|w| w[0].0 * 9 + w[0].1 < w[1].0 * 9 + w[1].1));
    for &(row, col) in &found {
        assert_eq!(CLASSIC[row][col], 0);
    }
}
