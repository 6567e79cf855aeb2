use sudoku::coord::Coord;
use sudoku::puzzle_text::{clue_from_fields, clue_from_numbers, parse_clue, parse_clues};
use sudoku::render::decimal;
use sudoku::RectangularBoard;

#[test]
fn decimal_writes_the_digits() {
    assert_eq!(decimal(0), "0");
    assert_eq!(decimal(7), "7");
    assert_eq!(decimal(10), "10");
    assert_eq!(decimal(909), "909");
    assert_eq!(decimal(1234567890), "1234567890");
    assert_eq!(decimal(usize::MAX), usize::MAX.to_string());
}

#[test]
fn blank_board_is_drawn_with_its_blocks() {
    let board = RectangularBoard::new(2, 2);
    let expected = "\
+-------+-------+
|       |       |
|       |       |
|       |       |
+-------+-------+
|       |       |
|       |       |
|       |       |
+-------+-------+
";
    assert_eq!(board.pretty_print(), expected);
}

#[test]
fn wide_blocks_are_drawn_row_by_row() {
    let board = RectangularBoard::new(3, 1);
    let expected = "\
+-----------+
|           |
+-----------+
|           |
+-----------+
|           |
+-----------+
";
    assert_eq!(board.pretty_print(), expected);
}

#[test]
fn values_are_drawn_counted_from_one() {
    let mut board = RectangularBoard::new(2, 1);
    board.board.prefill_value(&Coord::new(0, 0), 0);
    let expected = "\
+-------+
| 1   2 |
+-------+
| 2     |
+-------+
";
    assert_eq!(board.pretty_print(), expected);
    let solutions = board.solve();
    let solved = "\
+-------+
| 1   2 |
+-------+
| 2   1 |
+-------+
";
    assert_eq!(solutions[0].pretty_print(), solved);
}

#[test]
fn values_of_two_digits_are_drawn_in_full() {
    let mut board = RectangularBoard::new(5, 2);
    board.board.set_value(&Coord::new(1, 0), 9);
    let picture = board.pretty_print();
    let first_row = picture.lines().nth(1).unwrap();
    assert_eq!(
        first_row,
        "|     10             |                   |"
    );
}

#[test]
fn a_line_of_three_numbers_is_a_clue() {
    let clue = parse_clue("3 7 9").unwrap();
    assert_eq!(clue.coord, Coord::new(2, 6));
    assert_eq!(clue.value, 8);
    let far = parse_clue("12 1 1").unwrap();
    assert_eq!(far.coord, Coord::new(11, 0));
    assert_eq!(far.value, 0);
}

#[test]
fn other_lines_are_no_clues() {
    assert!(parse_clue("").is_none());
    assert!(parse_clue("1 2").is_none());
    assert!(parse_clue("1 2 3 4").is_none());
    assert!(parse_clue("1  2 3").is_none());
    assert!(parse_clue("1 2 3 ").is_none());
    assert!(parse_clue("a 2 3").is_none());
    assert!(parse_clue("1 -2 3").is_none());
    assert!(parse_clue("0 2 3").is_none());
    assert!(parse_clue("1 0 3").is_none());
    assert!(parse_clue("1 2 0").is_none());
    assert!(parse_clue("1 2 10").is_none());
}

#[test]
fn clues_are_read_line_by_line() {
    let clues = parse_clues("1 1 5\n2 1 3\r\n9 9 9\n").unwrap();
    assert_eq!(clues.len(), 3);
    assert_eq!(clues[0].coord, Coord::new(0, 0));
    assert_eq!(clues[0].value, 4);
    assert_eq!(clues[1].coord, Coord::new(1, 0));
    assert_eq!(clues[1].value, 2);
    assert_eq!(clues[2].coord, Coord::new(8, 8));
    assert_eq!(clues[2].value, 8);
    assert_eq!(parse_clues("").unwrap().len(), 0);
    assert!(parse_clues("1 1 5\n\n2 1 3").is_none());
    assert!(parse_clues("1 1 5\nx").is_none());
}

#[test]
fn puzzle_text_gives_the_prefilled_board() {
    let board = RectangularBoard::from_string("1 1 5\n4 2 3");
    assert_eq!(board.block_width, 3);
    assert_eq!(board.block_height, 3);
    assert_eq!(board.board.groups.len(), 27);
    assert_eq!(board.get_cell(&Coord::new(0, 0)).get_value(), Some(4));
    assert_eq!(board.get_cell(&Coord::new(3, 1)).get_value(), Some(2));
    assert!(!board.get_cell(&Coord::new(0, 0)).is_set);
    assert_eq!(board.get_cell(&Coord::new(1, 0)).possibilities(), 8);
    assert_eq!(board.get_cell(&Coord::new(3, 0)).possibilities(), 7);
    assert_eq!(board.get_cell(&Coord::new(8, 8)).possibilities(), 9);
    assert!(!board.is_solved());
}

#[test]
fn puzzle_text_with_a_bad_line_gives_no_board() {
    assert!(RectangularBoard::try_from_string("1 1 5\n4 2").is_none());
    assert!(RectangularBoard::try_from_string("1 1 0").is_none());
    let blank = RectangularBoard::try_from_string("").unwrap();
    assert_eq!(blank.get_cell(&Coord::new(4, 4)).possibilities(), 9);
    let off_board = RectangularBoard::try_from_string("10 1 5").unwrap();
    assert_eq!(off_board.get_cell(&Coord::new(8, 0)).possibilities(), 9);
}

#[test]
fn puzzle_text_is_solved() {
    let text = "\
1 1 5\n2 1 8\n3 1 4\n4 1 9\n5 1 2\n9 1 3\n\
2 2 7\n4 2 1\n5 2 6\n7 2 5\n8 2 4\n\
2 3 6\n4 3 5\n6 3 4\n\
2 4 2\n3 4 9\n5 4 7\n7 4 6\n8 4 5\n\
1 5 1\n4 5 2\n6 5 5\n\
1 6 7\n2 6 4\n3 6 5\n7 6 9\n\
3 7 7\n4 7 8\n7 7 3\n8 7 1\n\
3 8 3\n4 8 7\n5 8 1\n8 8 8\n9 8 5\n\
1 9 6\n3 9 8\n5 9 5\n6 9 2\n8 9 9\n9 9 7\n";
    let board = RectangularBoard::from_string(text);
    let solutions = board.solve();
    assert_eq!(solutions.len(), 1);
    assert!(solutions[0].is_solved());
    assert!(solutions[0].is_valid_solution());
}

#[test]
fn numbers_counted_from_one_make_a_clue() {
    let clue = clue_from_numbers(1, 9, 9).unwrap();
    assert_eq!(clue.coord, Coord::new(0, 8));
    assert_eq!(clue.value, 8);
    let far = clue_from_numbers(usize::MAX, 1, 1).unwrap();
    assert_eq!(far.coord, Coord::new(usize::MAX - 1, 0));
    assert_eq!(far.value, 0);
    assert!(clue_from_numbers(0, 1, 1).is_none());
    assert!(clue_from_numbers(1, 0, 1).is_none());
    assert!(clue_from_numbers(1, 1, 0).is_none());
    assert!(clue_from_numbers(1, 1, 10).is_none());
}

#[test]
fn three_numbers_make_a_clue_and_nothing_else_does() {
    let clue = clue_from_fields(&vec![Some(2), Some(3), Some(4)]).unwrap();
    assert_eq!(clue.coord, Coord::new(1, 2));
    assert_eq!(clue.value, 3);
    assert!(clue_from_fields(&vec![]).is_none());
    assert!(clue_from_fields(&vec![Some(2), Some(3)]).is_none());
    assert!(clue_from_fields(&vec![Some(2), Some(3), Some(4), Some(5)]).is_none());
    assert!(clue_from_fields(&vec![None, Some(3), Some(4)]).is_none());
    assert!(clue_from_fields(&vec![Some(2), None, Some(4)]).is_none());
    assert!(clue_from_fields(&vec![Some(2), Some(3), None]).is_none());
    assert!(clue_from_fields(&vec![Some(2), Some(3), Some(0)]).is_none());
}

#[test]
fn numbers_are_plain_decimal_digits_after_an_optional_plus() {
    let clue = parse_clue("+3 007 9").unwrap();
    assert_eq!(clue.coord, Coord::new(2, 6));
    assert_eq!(clue.value, 8);
    assert!(parse_clue("+ 1 1").is_none());
    assert!(parse_clue("++3 1 1").is_none());
    assert!(parse_clue("3+ 1 1").is_none());
    assert!(parse_clue("1_0 1 1").is_none());
    assert!(parse_clue("1.0 1 1").is_none());
    assert!(parse_clue("\u{663} 1 1").is_none());
    assert!(parse_clue(" 1 1 1").is_none());
    assert!(parse_clue("1\t1\t1").is_none());
    let big = parse_clue("18446744073709551615 1 1");
    assert_eq!(big.is_some(), usize::MAX as u128 == 18446744073709551615u128);
    assert!(parse_clue("340282366920938463463374607431768211456 1 1").is_none());
}

#[test]
fn lines_end_at_a_line_feed_with_or_without_a_carriage_return() {
    assert_eq!(parse_clues("1 1 5\r\n2 1 3\r\n").unwrap().len(), 2);
    assert_eq!(parse_clues("1 1 5\n2 1 3").unwrap().len(), 2);
    assert_eq!(parse_clues("1 1 5\n").unwrap().len(), 1);
    assert!(parse_clues("1 1 5\r").is_none());
    assert!(parse_clues("1 1 5\r\r\n").is_none());
    assert!(parse_clues("1 1 5\r2 1 3\n").is_none());
    assert!(parse_clues("\n").is_none());
    assert!(parse_clues("1 1 5\n\n").is_none());
    assert!(parse_clues("\r\n1 1 5").is_none());
}
