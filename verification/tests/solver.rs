use sudoku_solver::col_for_pos;
use sudoku_solver::constraints_for_col;
use sudoku_solver::constraints_for_pos;
use sudoku_solver::constraints_for_quadrant;
use sudoku_solver::constraints_for_row;
use sudoku_solver::quadrant_for_pos;
use sudoku_solver::row_for_pos;
use sudoku_solver::solve;
use sudoku_solver::solve_impl;
use sudoku_solver::Solution;
use sudoku_solver::SolveError;

fn field_easy() -> Vec<i8> {
    vec![
        9, 4, 5, -1, -1, 8, -1, -1, 6,
        2, -1, 3, -1, 6, -1, -1, -1, 5,
        -1, -1, -1, 5, 4, 7, -1, 3, 2,
        7, -1, -1, -1, -1, 3, 2, 6, 9,
        3, -1, 4, -1, -1, 2, -1, -1, -1,
        -1, -1, 6, -1, 1, 9, 8, 4, -1,
        -1, -1, -1, 8, -1, -1, 5, 7, 1,
        6, 8, -1, -1, -1, -1, -1, -1, -1,
        -1, 5, -1, 3, 2, -1, -1, -1, 8,
    ]
}

/// A well-known 30-clue puzzle with a unique solution.
fn thirty_clue_puzzle() -> Vec<i8> {
    vec![
        5, 3, -1, -1, 7, -1, -1, -1, -1,
        6, -1, -1, 1, 9, 5, -1, -1, -1,
        -1, 9, 8, -1, -1, -1, -1, 6, -1,
        8, -1, -1, -1, 6, -1, -1, -1, 3,
        4, -1, -1, 8, -1, 3, -1, -1, 1,
        7, -1, -1, -1, 2, -1, -1, -1, 6,
        -1, 6, -1, -1, -1, -1, 2, 8, -1,
        -1, -1, -1, 4, 1, 9, -1, -1, 5,
        -1, -1, -1, -1, 8, -1, -1, 7, 9,
    ]
}

fn thirty_clue_solution() -> Vec<i8> {
    vec![
        5, 3, 4, 6, 7, 8, 9, 1, 2,
        6, 7, 2, 1, 9, 5, 3, 4, 8,
        1, 9, 8, 3, 4, 2, 5, 6, 7,
        8, 5, 9, 7, 6, 1, 4, 2, 3,
        4, 2, 6, 8, 5, 3, 7, 9, 1,
        7, 1, 3, 9, 2, 4, 8, 5, 6,
        9, 6, 1, 5, 3, 7, 2, 8, 4,
        2, 8, 7, 4, 1, 9, 6, 3, 5,
        3, 4, 5, 2, 8, 6, 1, 7, 9,
    ]
}

/// Checks the solution invariant: every row, column and box holds each
/// digit exactly once, and every clue of the input is unchanged.
fn assert_valid_solution(input: &[i8], sol: &[i8]) {
    assert_eq!(sol.len(), 81);
    for p in 0..81usize {
        assert!(sol[p] >= 1 && sol[p] <= 9);
        if input[p] != -1 {
            assert_eq!(sol[p], input[p]);
        }
    }
    for unit in 0..9usize {
        let mut row_seen: Vec<bool> = vec![false; 10];
        let mut col_seen: Vec<bool> = vec![false; 10];
        let mut box_seen: Vec<bool> = vec![false; 10];
        let quad = quadrant_for_pos(unit / 3 * 27 + unit % 3 * 3);
        for k in 0..9usize {
            let rv = sol[unit * 9 + k] as usize;
            let cv = sol[k * 9 + unit] as usize;
            let bv = sol[quad[k]] as usize;
            assert!(!row_seen[rv], "digit repeated in row {}", unit);
            assert!(!col_seen[cv], "digit repeated in column {}", unit);
            assert!(!box_seen[bv], "digit repeated in box {}", unit);
            row_seen[rv] = true;
            col_seen[cv] = true;
            box_seen[bv] = true;
        }
    }
}

#[test]
fn test_row() {
    assert_eq!(row_for_pos(0), 0);
    assert_eq!(row_for_pos(8), 0);
    assert_eq!(row_for_pos(9), 1);
    assert_eq!(row_for_pos(18), 2);
    assert_eq!(row_for_pos(22), 2);
    assert_eq!(row_for_pos(80), 8);
}

#[test]
fn test_column() {
    assert_eq!(col_for_pos(0), 0);
    assert_eq!(col_for_pos(9), 0);
    assert_eq!(col_for_pos(1), 1);
    assert_eq!(col_for_pos(19), 1);
    assert_eq!(col_for_pos(22), 4);
    assert_eq!(col_for_pos(70), 7);
    assert_eq!(col_for_pos(80), 8);
}

#[test]
fn test_quadrant() {
    assert_eq!(quadrant_for_pos(0), vec![0usize, 1, 2, 9, 10, 11, 18, 19, 20]);
    assert_eq!(quadrant_for_pos(45), vec![27usize, 28, 29, 36, 37, 38, 45, 46, 47]);
    assert_eq!(quadrant_for_pos(80), vec![60usize, 61, 62, 69, 70, 71, 78, 79, 80]);
}

#[test]
fn test_row_constraint() {
    let test_set_0: Vec<i8> = vec![1, 2, 3, -1, -1, -1, 7, -1, -1];
    let res_set_0 = constraints_for_row(0, &field_easy());

    let test_set_1: Vec<i8> = vec![1, -1, -1, 4, 5, -1, -1, 8, -1];
    let res_set_1 = constraints_for_row(3, &field_easy());

    let test_set_2: Vec<i8> = vec![1, -1, -1, 4, -1, 6, 7, -1, 9];
    let res_set_2 = constraints_for_row(8, &field_easy());

    assert_eq!(res_set_0, test_set_0);
    assert_eq!(res_set_1, test_set_1);
    assert_eq!(res_set_2, test_set_2);
}

#[test]
fn test_col_constraint() {
    let test_set_0: Vec<i8> = vec![1, -1, -1, 4, 5, -1, -1, 8, -1];
    let res_set_0 = constraints_for_col(0, &field_easy());

    let test_set_1: Vec<i8> = vec![1, 2, -1, 4, -1, 6, 7, -1, 9];
    let res_set_1 = constraints_for_col(3, &field_easy());

    let test_set_2: Vec<i8> = vec![-1, -1, 3, 4, -1, -1, 7, -1, -1];
    let res_set_2 = constraints_for_col(8, &field_easy());

    assert_eq!(res_set_0, test_set_0);
    assert_eq!(res_set_1, test_set_1);
    assert_eq!(res_set_2, test_set_2);
}

#[test]
fn test_quad_constraint() {
    let test_set_0: Vec<i8> = vec![1, -1, -1, -1, -1, 6, 7, 8, -1];
    let res_set_0 = constraints_for_quadrant(&quadrant_for_pos(0), &field_easy());

    let test_set_1: Vec<i8> = vec![1, 2, -1, -1, 5, -1, -1, 8, 9];
    let res_set_1 = constraints_for_quadrant(&quadrant_for_pos(27), &field_easy());

    let test_set_2: Vec<i8> = vec![-1, 2, 3, 4, -1, 6, -1, -1, 9];
    let res_set_2 = constraints_for_quadrant(&quadrant_for_pos(60), &field_easy());

    assert_eq!(res_set_0, test_set_0);
    assert_eq!(res_set_1, test_set_1);
    assert_eq!(res_set_2, test_set_2);
}

#[test]
fn test_solve() {
    let res = solve_impl(&field_easy(), field_easy(), 0);

    assert_ne!(res, Solution::DeadEnd);
}

#[test]
fn row_and_column_of_every_position() {
    for p in 0..81usize {
        assert_eq!(row_for_pos(p), p / 9);
        assert_eq!(col_for_pos(p), p % 9);
    }
}

#[test]
fn boxes_partition_the_grid() {
    let bases: Vec<usize> = vec![0, 3, 6, 27, 30, 33, 54, 57, 60];
    for p in 0..81usize {
        let mut containing: usize = 0;
        for b in 0..9usize {
            let members = quadrant_for_pos(bases[b]);
            assert_eq!(members.len(), 9);
            if members.contains(&p) {
                containing += 1;
            }
        }
        assert_eq!(containing, 1, "position {} must lie in exactly one box", p);
    }
}

#[test]
fn constraints_never_keep_a_present_digit() {
    let field = field_easy();
    for pos in 0..81usize {
        let legal = constraints_for_pos(pos, &field);
        let quad = quadrant_for_pos(pos);
        for k in 0..9usize {
            let row_digit = field[row_for_pos(pos) * 9 + k];
            let col_digit = field[k * 9 + col_for_pos(pos)];
            let box_digit = field[quad[k]];
            if row_digit != -1 {
                assert_eq!(legal[(row_digit - 1) as usize], -1);
            }
            if col_digit != -1 {
                assert_eq!(legal[(col_digit - 1) as usize], -1);
            }
            if box_digit != -1 {
                assert_eq!(legal[(box_digit - 1) as usize], -1);
            }
        }
    }
}

#[test]
fn constraints_idempotent_on_unmodified_grid() {
    let field = field_easy();
    for pos in 0..81usize {
        let first = constraints_for_pos(pos, &field);
        let second = constraints_for_pos(pos, &field);
        assert_eq!(first, second);
    }
}

#[test]
fn solved_grid_satisfies_all_units() {
    let field = field_easy();
    let res = solve(&field).expect("this puzzle is solvable");
    assert_valid_solution(&field, &res);
}

#[test]
fn thirty_clues_solve_to_known_solution() {
    let field = thirty_clue_puzzle();
    let res = solve(&field).expect("this puzzle is solvable");
    assert_eq!(res, thirty_clue_solution());
    assert_valid_solution(&field, &res);
}

#[test]
fn solver_is_deterministic() {
    let field = thirty_clue_puzzle();
    let first = solve(&field);
    let second = solve(&field);
    assert_eq!(first, second);
    let hopeless = vec![-1i8; 80];
    assert_eq!(solve(&hopeless), solve(&hopeless));
}

#[test]
fn duplicate_digit_in_row_is_a_dead_end() {
    // The solved grid of the thirty-clue puzzle, with row 8 emptied and
    // the cell at row 0, column 2 changed to repeat the 5 of column 0.
    let mut field = thirty_clue_solution();
    field[2] = 5;
    for k in 72..81usize {
        field[k] = -1;
    }
    assert_eq!(solve(&field), Err(SolveError::Unsolvable));
    let direct = solve_impl(&field, field.clone(), 0);
    assert_eq!(direct, Solution::DeadEnd);
}

#[test]
fn wrong_length_is_rejected_before_search() {
    let short = vec![-1i8; 80];
    assert_eq!(solve(&short), Err(SolveError::WrongSize));
    let long = vec![-1i8; 82];
    assert_eq!(solve(&long), Err(SolveError::WrongSize));
}

#[test]
fn empty_grid_solves_to_a_valid_grid() {
    let field = vec![-1i8; 81];
    let res = solve(&field).expect("the empty puzzle is solvable");
    assert_valid_solution(&field, &res);
}
