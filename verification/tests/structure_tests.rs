use sudoku::board::Board;
use sudoku::cell::Cell;
use sudoku::cell_container::CellContainer;
use sudoku::coord::Coord;
use sudoku::group::Group;
use sudoku::repeater::Repeater;
use sudoku::RectangularBoard;

fn pairs(group: &Group) -> Vec<(usize, usize)> {
    group.coordinates.iter().map(|c| (c.x, c.y)).collect()
}

#[test]
fn coord_keeps_column_and_row() {
    let coord = Coord::new(3, 7);
    assert_eq!(coord.x, 3);
    assert_eq!(coord.y, 7);
    assert_eq!(coord, Coord { x: 3, y: 7 });
    assert_ne!(coord, Coord::new(7, 3));
}

#[test]
fn new_cell_is_open() {
    let cell = Cell::new(4);
    assert_eq!(cell.possibilities(), 4);
    assert_eq!(cell.get_value(), None);
    assert!(!cell.is_set);
    assert_eq!(cell.possible_values, vec![true, true, true, true]);
}

#[test]
fn cell_of_one_value_is_resolved() {
    let cell = Cell::new(1);
    assert_eq!(cell.get_value(), Some(0));
    assert_eq!(cell.possibilities(), 1);
    assert!(!cell.is_set);
}

#[test]
fn cell_of_no_value_has_none() {
    let cell = Cell::new(0);
    assert_eq!(cell.get_value(), None);
    assert_eq!(cell.possibilities(), 0);
}

#[test]
fn strike_through_removes_one_candidate() {
    let mut cell = Cell::new(3);
    cell.strike_through(1);
    assert_eq!(cell.possible_values, vec![true, false, true]);
    assert_eq!(cell.possibilities(), 2);
    cell.strike_through(1);
    assert_eq!(cell.possibilities(), 2);
    cell.strike_through(0);
    assert_eq!(cell.get_value(), Some(2));
    cell.strike_through(2);
    assert_eq!(cell.possibilities(), 0);
    assert_eq!(cell.get_value(), None);
}

#[test]
fn prefill_collapses_without_confirming() {
    let mut cell = Cell::new(5);
    cell.strike_through(2);
    cell.prefill_value(2);
    assert_eq!(cell.possible_values, vec![false, false, true, false, false]);
    assert_eq!(cell.get_value(), Some(2));
    assert!(!cell.is_set);
}

#[test]
fn set_value_collapses_and_confirms() {
    let mut cell = Cell::new(5);
    cell.set_value(0);
    assert_eq!(cell.possible_values, vec![true, false, false, false, false]);
    assert!(cell.is_set);
    cell.strike_through(3);
    assert_eq!(cell.get_value(), Some(0));
    let copy = cell.clone();
    assert_eq!(copy.possible_values, cell.possible_values);
    assert_eq!(copy.is_set, cell.is_set);
}

#[test]
fn group_finds_its_coordinates() {
    let group = Group::new(vec![Coord::new(0, 1), Coord::new(2, 3)]);
    assert!(group.contains_coord(&Coord::new(0, 1)));
    assert!(group.contains_coord(&Coord::new(2, 3)));
    assert!(!group.contains_coord(&Coord::new(1, 0)));
    assert!(!Group::new(Vec::new()).contains_coord(&Coord::new(0, 0)));
    assert_eq!(pairs(&group.clone()), vec![(0, 1), (2, 3)]);
}

#[test]
fn repeater_calls_its_function_each_time() {
    let mut repeater = Repeater::new(|| 7usize);
    assert_eq!(repeater.next(), Some(7));
    assert_eq!(repeater.next(), Some(7));
}

#[test]
fn container_addresses_cells_by_row_and_column() {
    let mut cells = CellContainer::new(3);
    assert_eq!(cells.group_size(), 3);
    cells.get_mut_cell(&Coord::new(2, 1)).prefill_value(1);
    for y in 0..3 {
        for x in 0..3 {
            let expected = if (x, y) == (2, 1) { Some(1) } else { None };
            assert_eq!(cells.get_cell(&Coord::new(x, y)).get_value(), expected);
        }
    }
    let copy = cells.clone();
    assert_eq!(copy.get_cell(&Coord::new(2, 1)).get_value(), Some(1));
    assert_eq!(copy.get_cell(&Coord::new(1, 2)).get_value(), None);
}

#[test]
fn container_lists_pending_cells_row_by_row() {
    let mut cells = CellContainer::new(3);
    assert!(cells.get_cell_coords_to_update().is_empty());
    cells.get_mut_cell(&Coord::new(2, 2)).prefill_value(0);
    cells.get_mut_cell(&Coord::new(1, 0)).prefill_value(0);
    cells.get_mut_cell(&Coord::new(0, 1)).prefill_value(2);
    cells.get_mut_cell(&Coord::new(2, 0)).set_value(1);
    let pending = cells.get_cell_coords_to_update();
    assert_eq!(
        pending,
        vec![Coord::new(1, 0), Coord::new(0, 1), Coord::new(2, 2)]
    );
}

#[test]
fn two_by_three_board_has_columns_rows_and_blocks() {
    let puzzle = RectangularBoard::new(2, 3);
    assert_eq!(puzzle.block_width, 2);
    assert_eq!(puzzle.block_height, 3);
    assert_eq!(puzzle.board.cells.group_size(), 6);
    let groups = &puzzle.board.groups;
    assert_eq!(groups.len(), 18);
    assert_eq!(
        pairs(&groups[1]),
        vec![(1, 0), (1, 1), (1, 2), (1, 3), (1, 4), (1, 5)]
    );
    assert_eq!(
        pairs(&groups[6 + 4]),
        vec![(0, 4), (1, 4), (2, 4), (3, 4), (4, 4), (5, 4)]
    );
    assert_eq!(
        pairs(&groups[12]),
        vec![(0, 0), (0, 1), (0, 2), (1, 0), (1, 1), (1, 2)]
    );
    assert_eq!(
        pairs(&groups[13]),
        vec![(0, 3), (0, 4), (0, 5), (1, 3), (1, 4), (1, 5)]
    );
    assert_eq!(
        pairs(&groups[17]),
        vec![(4, 3), (4, 4), (4, 5), (5, 3), (5, 4), (5, 5)]
    );
}

#[test]
fn board_of_flat_blocks_has_no_block_groups() {
    assert_eq!(RectangularBoard::new(2, 1).board.groups.len(), 4);
    assert_eq!(RectangularBoard::new(1, 3).board.groups.len(), 6);
    assert_eq!(RectangularBoard::new(1, 1).board.groups.len(), 2);
    assert_eq!(RectangularBoard::new(3, 3).board.groups.len(), 27);
}

#[test]
fn nrc_board_has_four_more_regions() {
    let puzzle = RectangularBoard::new_nrc();
    let groups = &puzzle.board.groups;
    assert_eq!(groups.len(), 31);
    assert_eq!(
        pairs(&groups[27]),
        vec![(1, 1), (1, 2), (1, 3), (2, 1), (2, 2), (2, 3), (3, 1), (3, 2), (3, 3)]
    );
    assert_eq!(
        pairs(&groups[28]),
        vec![(1, 5), (1, 6), (1, 7), (2, 5), (2, 6), (2, 7), (3, 5), (3, 6), (3, 7)]
    );
    assert_eq!(
        pairs(&groups[30]),
        vec![(5, 5), (5, 6), (5, 7), (6, 5), (6, 6), (6, 7), (7, 5), (7, 6), (7, 7)]
    );
}

#[test]
fn assigning_rules_the_value_out_for_the_peers() {
    let mut puzzle = RectangularBoard::new(2, 2);
    puzzle.board.set_value(&Coord::new(1, 0), 3);
    let target = puzzle.get_cell(&Coord::new(1, 0));
    assert!(target.is_set);
    assert_eq!(target.possible_values, vec![false, false, false, true]);
    for (x, y) in [(0, 0), (2, 0), (3, 0), (1, 1), (1, 2), (1, 3), (0, 1)] {
        let peer = puzzle.get_cell(&Coord::new(x, y));
        assert_eq!(peer.possible_values, vec![true, true, true, false]);
        assert!(!peer.is_set);
    }
    for (x, y) in [(2, 1), (3, 3), (0, 2), (2, 2)] {
        assert_eq!(puzzle.get_cell(&Coord::new(x, y)).possibilities(), 4);
    }
}

#[test]
fn prefilling_rules_the_value_out_for_the_peers_and_confirms_nothing() {
    let mut puzzle = RectangularBoard::new(2, 2);
    puzzle.board.prefill_value(&Coord::new(1, 0), 3);
    let target = puzzle.get_cell(&Coord::new(1, 0));
    assert!(!target.is_set);
    assert_eq!(target.get_value(), Some(3));
    assert_eq!(
        puzzle.get_cell(&Coord::new(0, 1)).possible_values,
        vec![true, true, true, false]
    );
    assert_eq!(puzzle.get_cell(&Coord::new(2, 1)).possibilities(), 4);
    assert!(!puzzle.is_solved());
    assert_eq!(
        puzzle.board.cells.get_cell_coords_to_update(),
        vec![Coord::new(1, 0)]
    );
}

#[test]
fn placing_outside_every_group_changes_nothing() {
    let cells = CellContainer::new(2);
    let groups = vec![Group::new(vec![Coord::new(0, 0), Coord::new(1, 0)])];
    let mut board = Board::new(cells, groups);
    board.set_value(&Coord::new(0, 1), 1);
    for (x, y) in [(0, 0), (1, 0), (0, 1), (1, 1)] {
        let cell = board.get_cell(&Coord::new(x, y));
        assert_eq!(cell.possibilities(), 2);
        assert!(!cell.is_set);
    }
}

#[test]
fn pivot_is_the_first_open_cell_with_fewest_candidates() {
    let mut puzzle = RectangularBoard::new(2, 2);
    assert_eq!(puzzle.board.find_pivot_coord(), Some(Coord::new(0, 0)));
    puzzle.board.set_value(&Coord::new(0, 0), 0);
    assert_eq!(puzzle.board.find_pivot_coord(), Some(Coord::new(1, 0)));
    puzzle.board.set_value(&Coord::new(3, 2), 1);
    assert_eq!(puzzle.board.find_pivot_coord(), Some(Coord::new(3, 0)));
    let solved = puzzle.solve();
    assert_eq!(solved[0].board.find_pivot_coord(), None);
}

#[test]
fn validity_does_not_depend_on_confirmation() {
    let mut puzzle = RectangularBoard::new(2, 1);
    assert!(!puzzle.is_valid_solution());
    puzzle.board.cells.get_mut_cell(&Coord::new(0, 0)).prefill_value(0);
    puzzle.board.cells.get_mut_cell(&Coord::new(1, 0)).prefill_value(1);
    puzzle.board.cells.get_mut_cell(&Coord::new(0, 1)).prefill_value(1);
    assert!(!puzzle.is_valid_solution());
    puzzle.board.cells.get_mut_cell(&Coord::new(1, 1)).prefill_value(0);
    assert!(!puzzle.is_solved());
    assert!(puzzle.is_valid_solution());
    let mut wrong = RectangularBoard::new(2, 1);
    wrong.board.cells.get_mut_cell(&Coord::new(0, 0)).prefill_value(0);
    wrong.board.cells.get_mut_cell(&Coord::new(1, 0)).prefill_value(0);
    wrong.board.cells.get_mut_cell(&Coord::new(0, 1)).prefill_value(1);
    wrong.board.cells.get_mut_cell(&Coord::new(1, 1)).prefill_value(1);
    assert!(!wrong.is_valid_solution());
}

#[test]
fn board_keeps_what_it_is_given() {
    let cells = CellContainer::new(2);
    let groups = vec![Group::new(vec![Coord::new(0, 0), Coord::new(1, 1)])];
    let board = Board::new(cells, groups);
    assert_eq!(board.groups.len(), 1);
    assert_eq!(pairs(&board.groups[0]), vec![(0, 0), (1, 1)]);
    assert_eq!(board.cells.group_size(), 2);
    let copy = board.clone();
    assert_eq!(pairs(&copy.groups[0]), vec![(0, 0), (1, 1)]);
    assert!(!copy.is_solved());
}
