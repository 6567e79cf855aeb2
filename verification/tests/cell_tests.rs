use sudoku::cell::Cell;

#[test]
fn strike_through_forward_works() {
    let mut cell = Cell::new(9);
    for i in 0..8 {
        assert_eq!(cell.get_value(), None);
        cell.strike_through(i);
    }
    assert_eq!(cell.get_value(), Some(8));
}

#[test]
fn strike_through_backward_works() {
    let mut cell = Cell::new(9);
    for i in (1..9).rev() {
        assert_eq!(cell.get_value(), None);
        cell.strike_through(i);
    }
    assert_eq!(cell.get_value(), Some(0));
}

#[test]
fn cell_set_value_works() {
    let mut cell = Cell::new(9);
    cell.set_value(4);
    assert_eq!(cell.get_value(), Some(4));
}
