use sudoku_solver::{solve_sudoku, Item, Sudoku};

const SAMPLE: &str = " 1
69  2  57
    692
  9   4
47     2
581 9   3
  5  86
 4 2  8 1
   6   4";

fn assert_valid_solution(board: &Sudoku) {
    assert!(board.is_solved());
    for k in 0..9 {
        let mut row = board.get_row_values(k);
        let mut col = board.get_col_values(k);
        let mut sq = board.get_square_values((k / 3) * 3, (k % 3) * 3);
        for values in [&mut row, &mut col, &mut sq] {
            values.sort();
            assert_eq!(*values, vec![1, 2, 3, 4, 5, 6, 7, 8, 9]);
        }
    }
}

#[test]
fn solve_sudoku_works() {
    let board = Sudoku::from_text(SAMPLE).unwrap();
    println!("{board:?}");
    let (solved_board, time) = solve_sudoku(board).unwrap();
    println!("({time} iterations)\n{solved_board:?}");
}

#[test]
fn solution_is_valid_and_keeps_the_clues() {
    let board = Sudoku::from_text(SAMPLE).unwrap();
    let (solved, iterations) = solve_sudoku(board.clone()).unwrap();
    assert!(iterations >= 1);
    assert_valid_solution(&solved);
    for i in 0..9 {
        for j in 0..9 {
            if let Item::Number(x) = board.get(i, j) {
                assert_eq!(solved.get(i, j), &Item::Number(*x));
            }
        }
    }
}

#[test]
fn one_empty_cell_is_solved_in_one_iteration() {
    let text = " 34678912
672195348
198342567
859761423
426853791
713924856
961537284
287419635
345286179";
    let board = Sudoku::from_text(text).unwrap();
    let (solved, iterations) = solve_sudoku(board).unwrap();
    assert_eq!(iterations, 1);
    assert_eq!(*solved.get(0, 0), Item::Number(5));
    assert_valid_solution(&solved);
}

#[test]
fn dead_end_board_reports_exhaustion() {
    let board = Sudoku::from_text("12345678\n        9").unwrap();
    let (message, iterations) = solve_sudoku(board).unwrap_err();
    assert_eq!(message, "No solution found :C");
    assert_eq!(iterations, 1);
}

#[test]
fn sequential_counts_are_reproducible() {
    let board = Sudoku::from_text(SAMPLE).unwrap();
    let (first, n1) = solve_sudoku(board.clone()).unwrap();
    let (second, n2) = solve_sudoku(board).unwrap();
    assert_eq!(first, second);
    assert_eq!(n1, n2);
}

#[test]
fn empty_board_is_solved() {
    let board = Sudoku::from_text("").unwrap();
    let (solved, iterations) = solve_sudoku(board).unwrap();
    assert!(iterations >= 1);
    assert_valid_solution(&solved);
}
