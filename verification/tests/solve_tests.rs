use nqueens::board::Board;
use nqueens::search::{backtrack, solve, SolveOutcome};

fn solved(r: SolveOutcome) -> (u64, Vec<Vec<i8>>) {
    match r {
        SolveOutcome::Solved { count, solutions } => (count, solutions),
        SolveOutcome::UnsupportedSize => panic!("dimension unexpectedly unsupported"),
    }
}

#[test]
fn known_solution_counts() {
    let expected: [(usize, u64); 6] = [(1, 1), (4, 2), (5, 10), (6, 4), (7, 40), (8, 92)];
    for (n, want) in expected {
        let (count, solutions) = solved(solve(n));
        assert_eq!(count, want);
        assert_eq!(solutions.len() as u64, want);
    }
}

#[test]
fn small_boards_without_solutions() {
    let (count2, solutions2) = solved(solve(2));
    assert_eq!(count2, 0);
    assert!(solutions2.is_empty());
    let (count3, solutions3) = solved(solve(3));
    assert_eq!(count3, 0);
    assert!(solutions3.is_empty());
}

#[test]
fn trivial_boards() {
    let (count0, solutions0) = solved(solve(0));
    assert_eq!(count0, 1);
    assert_eq!(solutions0, vec![Vec::<i8>::new()]);
    let (count1, solutions1) = solved(solve(1));
    assert_eq!(count1, 1);
    assert_eq!(solutions1, vec![vec![0]]);
}

#[test]
fn four_queens_solutions_in_order() {
    let (count, solutions) = solved(solve(4));
    assert_eq!(count, 2);
    assert_eq!(solutions, vec![vec![1, 3, 0, 2], vec![2, 0, 3, 1]]);
}

#[test]
fn oversized_board_is_refused() {
    assert!(matches!(solve(11), SolveOutcome::UnsupportedSize));
    assert!(matches!(solve(100), SolveOutcome::UnsupportedSize));
    assert!(matches!(solve(10), SolveOutcome::Solved { .. }));
}

#[test]
fn every_emitted_solution_is_valid() {
    for n in 0..9usize {
        let (_, solutions) = solved(solve(n));
        for sol in &solutions {
            assert_eq!(sol.len(), n);
            for i in 0..n {
                assert!(0 <= sol[i] && (sol[i] as usize) < n);
                for j in (i + 1)..n {
                    assert_ne!(sol[i], sol[j]);
                    let row_diff = (j - i) as i8;
                    let col_diff = (sol[i] - sol[j]).abs();
                    assert_ne!(row_diff, col_diff);
                }
            }
        }
    }
}

#[test]
fn backtrack_restores_the_board() {
    let mut board = Board::new(4);
    let mut solutions: Vec<Vec<i8>> = Vec::new();
    let count = backtrack(&mut board, 0, &mut solutions);
    assert_eq!(count, 2);
    assert_eq!(solutions.len(), 2);
    for row in 0..4 {
        assert_eq!(board.get(row), None);
    }
}

#[test]
fn backtrack_counts_from_a_partial_board() {
    // with the first queen pinned to column 1, exactly one of the two
    // four-queens solutions remains
    let mut board = Board::new(4);
    assert!(board.set(0, 1));
    let mut solutions: Vec<Vec<i8>> = Vec::new();
    let count = backtrack(&mut board, 1, &mut solutions);
    assert_eq!(count, 1);
    assert_eq!(solutions, vec![vec![1, 3, 0, 2]]);
    assert_eq!(board.get(0), Some(1));
}
