use sudoku::coord::Coord;
use sudoku::RectangularBoard;

#[test]
fn test_board() {
    let mut board = RectangularBoard::new(3, 3);
    board.board.set_value(&Coord::new(3, 3), 3);
    assert_eq!(board.get_cell(&Coord::new(3, 3)).get_value(), Some(3));
}

#[test]
fn solve_nrc_puzzle() {
    let mut board = RectangularBoard::new_nrc();
    board.board.prefill_value(&Coord::new(3, 1), 3);
    board.board.prefill_value(&Coord::new(6, 1), 4);
    board.board.prefill_value(&Coord::new(3, 2), 1);
    board.board.prefill_value(&Coord::new(8, 2), 7);
    board.board.prefill_value(&Coord::new(1, 3), 8);
    board.board.prefill_value(&Coord::new(2, 3), 0);
    board.board.prefill_value(&Coord::new(3, 3), 4);
    board.board.prefill_value(&Coord::new(6, 3), 6);
    board.board.prefill_value(&Coord::new(1, 4), 1);
    board.board.prefill_value(&Coord::new(2, 4), 6);
    board.board.prefill_value(&Coord::new(3, 4), 7);
    board.board.prefill_value(&Coord::new(4, 4), 5);
    board.board.prefill_value(&Coord::new(0, 5), 2);
    board.board.prefill_value(&Coord::new(3, 5), 0);
    board.board.prefill_value(&Coord::new(4, 5), 3);
    board.board.prefill_value(&Coord::new(6, 5), 8);
    board.board.prefill_value(&Coord::new(5, 6), 2);
    board.board.prefill_value(&Coord::new(0, 7), 6);
    board.board.prefill_value(&Coord::new(2, 7), 2);
    board.board.prefill_value(&Coord::new(4, 7), 4);
    board.board.prefill_value(&Coord::new(6, 7), 7);

    assert_eq!(board.is_solved(), false);

    let solutions = board.solve();

    assert_eq!(board.is_solved(), false);
    assert_eq!(solutions.len(), 1);
    assert_eq!(solutions.get(0).map(|it| it.is_solved()), Some(true));
}

#[test]
fn solve_puzzle() {
    let mut board = RectangularBoard::new(3, 3);
    board.board.prefill_value(&Coord::new(0, 0), 4);
    board.board.prefill_value(&Coord::new(1, 0), 7);
    board.board.prefill_value(&Coord::new(2, 0), 3);
    board.board.prefill_value(&Coord::new(3, 0), 8);
    board.board.prefill_value(&Coord::new(4, 0), 1);
    board.board.prefill_value(&Coord::new(8, 0), 2);
    board.board.prefill_value(&Coord::new(1, 1), 6);
    board.board.prefill_value(&Coord::new(3, 1), 0);
    board.board.prefill_value(&Coord::new(4, 1), 5);
    board.board.prefill_value(&Coord::new(6, 1), 4);
    board.board.prefill_value(&Coord::new(7, 1), 3);
    board.board.prefill_value(&Coord::new(1, 2), 5);
    board.board.prefill_value(&Coord::new(3, 2), 4);
    board.board.prefill_value(&Coord::new(5, 2), 3);
    board.board.prefill_value(&Coord::new(1, 3), 1);
    board.board.prefill_value(&Coord::new(2, 3), 8);
    board.board.prefill_value(&Coord::new(4, 3), 6);
    board.board.prefill_value(&Coord::new(6, 3), 5);
    board.board.prefill_value(&Coord::new(7, 3), 4);
    board.board.prefill_value(&Coord::new(0, 4), 0);
    board.board.prefill_value(&Coord::new(3, 4), 1);
    board.board.prefill_value(&Coord::new(5, 4), 4);
    board.board.prefill_value(&Coord::new(0, 5), 6);
    board.board.prefill_value(&Coord::new(1, 5), 3);
    board.board.prefill_value(&Coord::new(2, 5), 4);
    board.board.prefill_value(&Coord::new(6, 5), 8);
    board.board.prefill_value(&Coord::new(2, 6), 6);
    board.board.prefill_value(&Coord::new(3, 6), 7);
    board.board.prefill_value(&Coord::new(6, 6), 2);
    board.board.prefill_value(&Coord::new(7, 6), 0);
    board.board.prefill_value(&Coord::new(2, 7), 2);
    board.board.prefill_value(&Coord::new(3, 7), 6);
    board.board.prefill_value(&Coord::new(4, 7), 0);
    board.board.prefill_value(&Coord::new(7, 7), 7);
    board.board.prefill_value(&Coord::new(8, 7), 4);
    board.board.prefill_value(&Coord::new(0, 8), 5);
    board.board.prefill_value(&Coord::new(2, 8), 7);
    board.board.prefill_value(&Coord::new(4, 8), 4);
    board.board.prefill_value(&Coord::new(5, 8), 1);
    board.board.prefill_value(&Coord::new(7, 8), 8);
    board.board.prefill_value(&Coord::new(8, 8), 6);

    assert_eq!(board.is_solved(), false);

    let solutions = board.solve();

    assert_eq!(board.is_solved(), false);
    assert_eq!(solutions.len(), 1);
    assert_eq!(solutions.get(0).map(|it| it.is_solved()), Some(true));
}

#[test]
fn solve_2_by_3_puzzle() {
    let mut board = RectangularBoard::new(2, 3);
    board.board.prefill_value(&Coord::new(0, 0), 0);
    board.board.prefill_value(&Coord::new(1, 0), 1);
    board.board.prefill_value(&Coord::new(2, 0), 2);
    board.board.prefill_value(&Coord::new(3, 0), 3);
    board.board.prefill_value(&Coord::new(4, 0), 4);
    board.board.prefill_value(&Coord::new(5, 0), 5);
    board.board.prefill_value(&Coord::new(0, 1), 2);
    board.board.prefill_value(&Coord::new(1, 1), 3);
    board.board.prefill_value(&Coord::new(2, 1), 4);
    board.board.prefill_value(&Coord::new(3, 1), 5);
    board.board.prefill_value(&Coord::new(4, 1), 0);
    board.board.prefill_value(&Coord::new(5, 1), 1);
    board.board.prefill_value(&Coord::new(0, 2), 4);
    board.board.prefill_value(&Coord::new(1, 2), 5);
    board.board.prefill_value(&Coord::new(2, 2), 0);
    board.board.prefill_value(&Coord::new(3, 2), 1);
    board.board.prefill_value(&Coord::new(4, 2), 2);
    board.board.prefill_value(&Coord::new(5, 2), 3);
    board.board.prefill_value(&Coord::new(0, 3), 1);
    board.board.prefill_value(&Coord::new(1, 3), 0);
    board.board.prefill_value(&Coord::new(2, 3), 3);
    board.board.prefill_value(&Coord::new(3, 3), 2);
    board.board.prefill_value(&Coord::new(4, 3), 5);
    board.board.prefill_value(&Coord::new(5, 3), 4);
    board.board.prefill_value(&Coord::new(0, 4), 3);
    board.board.prefill_value(&Coord::new(1, 4), 2);
    board.board.prefill_value(&Coord::new(0, 5), 5);

    assert_eq!(board.is_solved(), false);

    let solutions = board.solve();

    assert_eq!(board.is_solved(), false);
    assert_eq!(solutions.len(), 1);
    assert_eq!(solutions.get(0).map(|it| it.is_solved()), Some(true));
}

#[test]
fn solve_2_by_1_puzzle() {
    let mut board = RectangularBoard::new(2, 1);
    board.board.prefill_value(&Coord::new(0, 0), 0);

    assert_eq!(board.is_solved(), false);

    let solutions = board.solve();

    assert_eq!(board.is_solved(), false);
    assert_eq!(solutions.len(), 1);
    assert_eq!(solutions.get(0).map(|it| it.is_solved()), Some(true));
}
