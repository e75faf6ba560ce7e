use sudoku_solver::{Item, Sudoku, SudokuState};

const FULL: &str = "926817345
851394726
473265891
685123479
734589162
219746538
586472 1
342951687
197638254";

#[test]
fn create_sudoku_from_text_works() {
    let text = " 1
69  2  57
    692
  9   4
47     2
581 9   3
  5  86
 4 2  8 1
   6   4";
    let board = Sudoku::from_text(text).unwrap();
    println!("{board:?}");
}

#[test]
fn create_sudoku_from_text_fails_on_invalid_input() {
    let text = " 1
699 2  57
    692
  9   4
47     2
581 9   3
  5  86
 4 2  8 1
   6   4";
    let err = Sudoku::from_text(text).unwrap_err();
    println!("{err}");
}

#[test]
fn get_row_values_works() {
    let board = Sudoku::parse(FULL).unwrap();
    let row = board.get_row_values(0);
    let expected = vec![9, 2, 6, 8, 1, 7, 3, 4, 5];
    assert_eq!(row, expected);
}

#[test]
fn get_col_values_works() {
    let board = Sudoku::parse(FULL).unwrap();
    let col = board.get_col_values(0);
    let expected = vec![9, 8, 4, 6, 7, 2, 5, 3, 1];
    assert_eq!(col, expected);
}

#[test]
fn get_square_values_works() {
    let board = Sudoku::parse(FULL).unwrap();
    let cases = [
        ((1, 1), vec![9, 2, 6, 8, 5, 1, 4, 7, 3]),
        ((6, 8), vec![1, 6, 8, 7, 2, 5, 4]),
    ];
    for ((i, j), expected) in cases {
        let square = board.get_square_values(i, j);
        assert_eq!(square, expected);
    }
}

#[test]
fn get_guesses_works() {
    let text = " 26817345
851394726
473265891
685123479
734589162
219746538
586472 1
342951687
197638254";
    let board = Sudoku::parse(text).unwrap();
    let guesses = board.get_guesses(0, 0);
    let expected = vec![9];
    println!("{board:?}");
    println!("{guesses:?}");
    assert_eq!(guesses, expected);
}

#[test]
fn compute_guesses_works() {
    let text = "926817 45
8 139 726
4  26 891
6 5   47
73  8 1 2
2 97465 8
    72  
 42  1  7
1 76 8  4";
    let mut board = Sudoku::from_text(text).unwrap();
    println!("{board:?}");
    board.compute_guesses();
    println!("{board:?}");
    if let Item::Guesses(guesses) = board.get(6, 8) {
        assert_eq!(*guesses, vec![3, 9]);
    } else {
        unreachable!();
    }
}

#[test]
fn from_text_checks_what_parse_accepts() {
    assert!(Sudoku::parse(FULL).is_ok());
    assert_eq!(Sudoku::from_text(FULL).unwrap_err(), "Invalid board");
    assert_eq!(Sudoku::parse("12x").unwrap_err(), "Invalid input");
}

#[test]
fn from_text_rejects_repeated_value_in_box() {
    // The two 5s share neither a row nor a column, only the top-left box.
    let text = "5\n 5";
    assert_eq!(Sudoku::from_text(text).unwrap_err(), "Invalid board");
}

#[test]
fn from_text_rejects_repeated_value_in_column() {
    let text = "7\n\n\n\n\n\n\n\n7";
    assert_eq!(Sudoku::from_text(text).unwrap_err(), "Invalid board");
}

#[test]
fn from_text_rejects_unknown_character() {
    assert_eq!(Sudoku::from_text("12x").unwrap_err(), "Invalid input");
}

#[test]
fn from_text_rejects_text_outside_the_board() {
    assert_eq!(Sudoku::from_text("1234567891").unwrap_err(), "Invalid input");
    assert_eq!(Sudoku::from_text("\n\n\n\n\n\n\n\n\n1").unwrap_err(), "Invalid input");
}

#[test]
fn from_text_reads_crlf_lines_and_leaves_missing_cells_empty() {
    let board = Sudoku::from_text("1\r\n 2").unwrap();
    assert_eq!(*board.get(0, 0), Item::Number(1));
    assert_eq!(*board.get(1, 0), Item::Empty);
    assert_eq!(*board.get(1, 1), Item::Number(2));
    assert_eq!(*board.get(8, 8), Item::Empty);
    assert_eq!(board.state(), SudokuState::Unknown);
    assert!(!board.is_solved());
}

#[test]
fn empty_text_is_an_empty_board() {
    let board = Sudoku::from_text("").unwrap();
    for i in 0..9 {
        assert!(board.get_row_values(i).is_empty());
    }
}

#[test]
fn set_fills_one_cell() {
    let mut board = Sudoku::from_text("").unwrap();
    board.set(4, 5, 7);
    assert_eq!(*board.get(4, 5), Item::Number(7));
    assert_eq!(board.get_row_values(4), vec![7]);
    assert_eq!(board.get_col_values(5), vec![7]);
    assert_eq!(board.get_square_values(3, 3), vec![7]);
    assert_eq!(board.get_guesses(4, 0), vec![1, 2, 3, 4, 5, 6, 8, 9]);
}

#[test]
fn compute_guesses_fills_forced_cells_and_marks_solved() {
    let text = " 34678912
672195348
198342567
859761423
426853791
713924856
961537284
287419635
34528617 ";
    let mut board = Sudoku::from_text(text).unwrap();
    board.compute_guesses();
    assert_eq!(*board.get(0, 0), Item::Number(5));
    assert_eq!(*board.get(8, 8), Item::Number(9));
    assert!(board.is_solved());
}

#[test]
fn compute_guesses_marks_dead_end_invalid() {
    let mut board = Sudoku::from_text("12345678\n        9").unwrap();
    board.compute_guesses();
    assert_eq!(*board.get(0, 8), Item::Error);
    assert_eq!(board.state(), SudokuState::Invalid);
}

#[test]
fn compute_guesses_points_at_first_open_cell() {
    let mut board = Sudoku::from_text("").unwrap();
    board.compute_guesses();
    assert_eq!(board.state(), SudokuState::HaveGuesses((0, 0)));
    assert_eq!(*board.get(0, 0), Item::Guesses(vec![1, 2, 3, 4, 5, 6, 7, 8, 9]));
}

#[test]
fn clone_and_eq_agree() {
    let board = Sudoku::parse(FULL).unwrap();
    let mut copy = board.clone();
    assert_eq!(board, copy);
    copy.set(6, 6, 9);
    assert_ne!(board, copy);
}
