use nqueens::board::Board;

#[test]
fn queen_list_with_two_digit_coordinates() {
    let mut board = Board::new(12);
    assert!(board.set(11, 5));
    assert!(board.set(10, 3));
    assert_eq!(board.get_queens(), "Queens: [{10, 3}, {11, 5}]");
}

#[test]
fn grid_of_a_small_board() {
    let mut board = Board::new(2);
    assert!(board.set(0, 1));
    let grid = board.board_grid_string();
    assert_eq!(grid, "===0==1==\n0| .  Q |\n1| .  . |\n=========\n");
}

#[test]
fn grid_of_an_empty_board() {
    let board = Board::new(1);
    assert_eq!(board.board_grid_string(), "===0==\n0| . |\n======\n");
}

#[test]
fn grid_marks_every_queen_once() {
    let mut board = Board::new(5);
    assert!(board.set(0, 0));
    assert!(board.set(1, 2));
    assert!(board.set(2, 4));
    let grid = board.board_grid_string();
    assert_eq!(grid.matches(" Q ").count(), 3);
    assert_eq!(grid.matches(" . ").count(), 22);
}
