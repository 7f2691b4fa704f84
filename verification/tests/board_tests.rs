use nqueens::board::Board;

#[test]
fn create_queen() {
    let mut board = Board::new(8);
    let create = board.set(0, 0);
    assert_eq!(create, true);
}

#[test]
fn diagonal_found() {
    let mut board = Board::new(8);
    board.set(0, 0);
    let bad_coord = board.set(1, 1);
    assert_eq!(bad_coord, false);
    assert_eq!(board.check_diagonal(0, 0, 1, 1), false);
}

#[test]
fn conflicting_column_found() {
    let mut board = Board::new(8);
    board.set(1, 2);
    assert_eq!(board.check_column(1), true);
    assert_eq!(board.check_column(2), false);
    assert_eq!(board.check_column(3), true);
}

#[test]
fn too_big() {
    let board = Board::new(8);
    let too_big = board.check_valid(0, 8);
    let other_too_big = board.check_valid(8, 0);
    let way_too_big = board.check_valid(8, 8);
    let okay_size = board.check_valid(0, 0);
    assert_eq!(too_big, false);
    assert_eq!(other_too_big, false);
    assert_eq!(way_too_big, false);
    assert_eq!(okay_size, true);
}

#[test]
fn too_small() {
    let board = Board::new(8);
    let too_small = board.check_valid(0, -1);
    let way_too_small = board.check_valid(0, -90);
    assert_eq!(too_small, false);
    assert_eq!(way_too_small, false);
}

#[test]
fn output_test() {
    let mut board = Board::new(8);
    board.set(0, 0);
    let mut queens = board.get_queens();
    assert_eq!(queens, "Queens: [{0, 0}]");
    board.set(1, 4);
    queens = board.get_queens();
    assert_eq!(queens, "Queens: [{0, 0}, {1, 4}]");
    board.set(2, 7);
    board.set(3, 5);
    queens = board.get_queens();
    assert_eq!(queens, "Queens: [{0, 0}, {1, 4}, {2, 7}, {3, 5}]");
    board.set(4, 2);
    board.set(5, 6);
    queens = board.get_queens();
    assert_eq!(queens, "Queens: [{0, 0}, {1, 4}, {2, 7}, {3, 5}, {4, 2}, {5, 6}]");
    board.set(6, 1);
    board.set(7, 3);
    queens = board.get_queens();
    assert_eq!(queens, "Queens: [{0, 0}, {1, 4}, {2, 7}, {3, 5}, {4, 2}, {5, 6}, {6, 1}, {7, 3}]");
    println!("Test getter:");
    assert_eq!(board.get(0), Some(0));
    assert_eq!(board.get(1), Some(4));
    assert_eq!(board.get(2), Some(7));
    assert_eq!(board.get(3), Some(5));
    assert_eq!(board.get(4), Some(2));
    assert_eq!(board.get(5), Some(6));
    assert_eq!(board.get(6), Some(1));
    assert_eq!(board.get(7), Some(3));
}

#[test]
fn diagonal_check_is_pure_and_exact() {
    let board = Board::new(8);
    assert_eq!(board.check_diagonal(0, 0, 1, 1), false);
    assert_eq!(board.check_diagonal(0, 0, 1, 2), true);
    assert_eq!(board.check_diagonal(5, 2, 2, 5), false);
    assert_eq!(board.check_diagonal(4, 4, 4, 7), true);
}

#[test]
fn column_freed_after_unset() {
    let mut board = Board::new(8);
    assert!(board.set(3, 5));
    assert_eq!(board.check_column(5), false);
    assert!(board.unset(3, 5));
    assert_eq!(board.check_column(5), true);
}

#[test]
fn place_then_unplace_restores_checks() {
    let mut board = Board::new(6);
    board.set(0, 1);
    board.set(1, 3);
    let mut before = Vec::new();
    for row in 0..6usize {
        for col in 0..6i8 {
            before.push(board.check_valid(row, col));
        }
    }
    assert!(board.set(2, 5));
    assert!(board.unset(2, 5));
    let mut idx = 0;
    for row in 0..6usize {
        for col in 0..6i8 {
            assert_eq!(board.check_valid(row, col), before[idx]);
            idx += 1;
        }
    }
}

#[test]
fn get_and_unset_out_of_range() {
    let mut board = Board::new(4);
    assert_eq!(board.get(4), None);
    assert_eq!(board.get(100), None);
    assert_eq!(board.unset(4, 0), false);
    assert_eq!(board.unset(0, -1), false);
    assert_eq!(board.unset(0, 4), false);
    assert_eq!(board.unset(0, 0), true);
}

#[test]
fn failed_set_leaves_board_unchanged() {
    let mut board = Board::new(4);
    board.set(0, 0);
    let before = board.get_queens();
    assert_eq!(board.set(1, 0), false);
    assert_eq!(board.set(1, 1), false);
    assert_eq!(board.set(4, 2), false);
    assert_eq!(board.get_queens(), before);
}

#[test]
fn empty_board_has_no_queens() {
    let board = Board::new(3);
    assert_eq!(board.get_queens(), "Queens: []");
    assert_eq!(board.get(0), None);
    assert_eq!(board.check_column(0), true);
}
