use sudoku_solver::parallel::{expand, SharedSearch, Task};
use sudoku_solver::{solve_sudoku, Sudoku, SudokuSolver};

const SAMPLE: &str = " 1
69  2  57
    692
  9   4
47     2
581 9   3
  5  86
 4 2  8 1
   6   4";

/// Runs `workers` simulated workers in turn on one shared search until all stop.
fn run_interleaved(board: Sudoku, workers: usize) -> Result<(Sudoku, usize), (String, usize)> {
    let graph = SudokuSolver;
    let mut shared = SharedSearch::new(&graph, board);
    let mut held: Vec<Option<Sudoku>> = (0..workers).map(|_| None).collect();
    let mut stopped = vec![false; workers];
    while stopped.iter().any(|s| !s) {
        for w in 0..workers {
            if stopped[w] {
                continue;
            }
            if let Some(node) = held[w].take() {
                let report = expand(&graph, node);
                assert!(shared.outstanding_count() + report.neighbour_count() <= usize::MAX);
                shared.complete(report);
            } else {
                match shared.claim() {
                    Task::Work(node) => held[w] = Some(node),
                    Task::Wait => {}
                    Task::Stop => stopped[w] = true,
                }
            }
        }
    }
    shared.into_outcome().unwrap()
}

#[test]
fn interleaved_workers_find_the_unique_solution() {
    let board = Sudoku::from_text(SAMPLE).unwrap();
    let (expected, _) = solve_sudoku(board.clone()).unwrap();
    for workers in [1, 2, 3, 8] {
        let (solved, iterations) = run_interleaved(board.clone(), workers).unwrap();
        assert!(iterations >= 1);
        assert_eq!(solved, expected);
    }
}

#[test]
fn interleaved_workers_report_exhaustion() {
    let board = Sudoku::from_text("12345678\n        9").unwrap();
    for workers in [1, 4] {
        let (message, iterations) = run_interleaved(board.clone(), workers).unwrap_err();
        assert_eq!(message, "No solution found :C");
        assert_eq!(iterations, 1);
    }
}

#[test]
fn waiting_worker_does_not_declare_exhaustion() {
    let graph = SudokuSolver;
    let board = Sudoku::from_text(SAMPLE).unwrap();
    let mut shared = SharedSearch::new(&graph, board);
    let node = match shared.claim() {
        Task::Work(node) => node,
        _ => panic!("the start node must be handed out"),
    };
    assert_eq!(shared.outstanding_count(), 1);
    assert!(matches!(shared.claim(), Task::Wait));
    assert!(!shared.is_finished());
    shared.complete(expand(&graph, node));
    assert!(matches!(shared.claim(), Task::Work(_)));
}

#[test]
fn single_worker_matches_sequential_count() {
    let board = Sudoku::from_text(SAMPLE).unwrap();
    let (expected, count) = solve_sudoku(board.clone()).unwrap();
    let (solved, iterations) = run_interleaved(board, 1).unwrap();
    assert_eq!(solved, expected);
    assert_eq!(iterations, count);
}
