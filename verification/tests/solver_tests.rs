use sudoku_solver::solver::{parts, SolveError, Solver};
use sudoku_solver::sudoku::Sudoku;

fn parse(s: &str) -> Sudoku {
    assert_eq!(s.len(), 81);
    let cases: Vec<usize> = s
        .chars()
        .map(|c| c.to_digit(10).unwrap_or(0) as usize)
        .collect();
    Sudoku { cases }
}

fn render(s: &Sudoku) -> String {
    s.cases
        .iter()
        .map(|v| char::from_digit(*v as u32, 10).unwrap_or('0'))
        .collect()
}

/// A classic valid complete grid: cell (r, c) holds (r*3 + r/3 + c) % 9 + 1.
fn pattern_grid() -> Vec<usize> {
    let mut cases = vec![0usize; 81];
    for r in 0..9 {
        for c in 0..9 {
            cases[r * 9 + c] = (r * 3 + r / 3 + c) % 9 + 1;
        }
    }
    cases
}

fn same_unit(a: usize, b: usize) -> bool {
    a / 9 == b / 9 || a % 9 == b % 9 || (a / 27 == b / 27 && (a % 9) / 3 == (b % 9) / 3)
}

fn check_valid_solution(cases: &[usize], givens: &[usize]) {
    assert_eq!(cases.len(), 81);
    for c in 0..81 {
        assert!(
            (1..=9).contains(&cases[c]),
            "cell {} is {} (not solved)",
            c,
            cases[c]
        );
        if givens[c] != 0 {
            assert_eq!(cases[c], givens[c], "given at cell {} was altered", c);
        }
    }
    for a in 0..81 {
        for b in (a + 1)..81 {
            if same_unit(a, b) {
                assert_ne!(cases[a], cases[b], "cells {} and {} clash", a, b);
            }
        }
    }
}

#[test]
fn empty_grid_solves() {
    let givens = vec![0usize; 81];
    let sudoku = Sudoku {
        cases: givens.clone(),
    };
    let mut solver = Solver::new(&sudoku);
    assert_eq!(solver.solve(), Ok(()));
    let res = solver.into_sudoku();
    check_valid_solution(&res.cases, &givens);
}

#[test]
fn single_forced_cell() {
    let full = pattern_grid();
    let mut givens = full.clone();
    givens[40] = 0;
    let sudoku = Sudoku {
        cases: givens.clone(),
    };
    let mut solver = Solver::new(&sudoku);
    assert_eq!(solver.solve(), Ok(()));
    assert_eq!(solver.stack_len(), 0);
    let res = solver.into_sudoku();
    check_valid_solution(&res.cases, &givens);
    assert_eq!(res.cases, full);
}

#[test]
fn deduction_without_backtracking() {
    // the last row removed: every empty cell is forced by its column, so the
    // solution is reached without any speculative guess
    let full = pattern_grid();
    let mut givens = full.clone();
    for c in 72..81 {
        givens[c] = 0;
    }
    let sudoku = Sudoku {
        cases: givens.clone(),
    };
    let mut solver = Solver::new(&sudoku);
    assert_eq!(solver.solve(), Ok(()));
    assert_eq!(solver.stack_len(), 0, "a guess was left outstanding");
    let res = solver.into_sudoku();
    check_valid_solution(&res.cases, &givens);
    assert_eq!(res.cases, full);
}

#[test]
fn seventeen_clue_unique() {
    let puzzle = "000000010400000000020000000000050407008000300001090000300400200050100000000806000";
    let expected = "693784512487512936125963874932651487568247391741398625319475268856129743274836159";
    let sudoku = parse(puzzle);
    let givens = sudoku.cases.clone();
    let mut solver = Solver::new(&sudoku);
    assert_eq!(solver.solve(), Ok(()));
    let res = solver.into_sudoku();
    check_valid_solution(&res.cases, &givens);
    assert_eq!(render(&res), expected);
}

#[test]
fn unsolvable_row_conflict() {
    // two 2s in the first row, and the last cell of that row is left with no
    // candidate at all by its column: the solver reports the contradiction
    let mut givens = vec![0usize; 81];
    let row0 = [2usize, 2, 3, 4, 5, 6, 7, 8];
    for (c, v) in row0.iter().enumerate() {
        givens[c] = *v;
    }
    givens[9 + 8] = 1;
    givens[18 + 8] = 9;
    let sudoku = Sudoku {
        cases: givens.clone(),
    };
    let mut solver = Solver::new(&sudoku);
    assert_eq!(solver.solve(), Err(SolveError::Unsolvable));
}

#[test]
fn solved_input_unchanged() {
    let full = pattern_grid();
    let sudoku = Sudoku {
        cases: full.clone(),
    };
    let mut solver = Solver::new(&sudoku);
    assert_eq!(solver.solve(), Ok(()));
    assert_eq!(solver.stack_len(), 0);
    let res = solver.into_sudoku();
    assert_eq!(res.cases, full);
}

#[test]
fn parts_lists_the_27_units() {
    let units = parts();
    assert_eq!(units.len(), 27);
    for u in &units {
        assert_eq!(u.len(), 9);
    }
    assert_eq!(units[0][4], (0, 4));
    assert_eq!(units[8][0], (8, 0));
    assert_eq!(units[9][3], (3, 0));
    assert_eq!(units[17][5], (5, 8));
    assert_eq!(units[18][4], (1, 1));
    assert_eq!(units[26][8], (8, 8));
}

#[test]
fn hard_puzzle_backtracks_to_a_valid_solution() {
    // several solutions exist; any returned grid must be valid and keep the
    // givens
    let puzzle = "100000000020000000003000000000400000000050000000006000000000700000000080000000009";
    let sudoku = parse(puzzle);
    let givens = sudoku.cases.clone();
    let mut solver = Solver::new(&sudoku);
    assert_eq!(solver.solve(), Ok(()));
    let res = solver.into_sudoku();
    check_valid_solution(&res.cases, &givens);
}
