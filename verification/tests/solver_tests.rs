use sudoku::board::Board;
use sudoku::cell_container::CellContainer;
use sudoku::group::Group;
use sudoku::coord::Coord;
use sudoku::RectangularBoard;

fn value_at(board: &Board, x: usize, y: usize) -> Option<usize> {
    board.get_cell(&Coord::new(x, y)).get_value()
}

fn counts(board: &Board) -> Vec<usize> {
    let size = board.cells.group_size();
    let mut all = Vec::new();
    for y in 0..size {
        for x in 0..size {
            all.push(board.get_cell(&Coord::new(x, y)).possibilities());
        }
    }
    all
}

fn values(board: &Board) -> Vec<Option<usize>> {
    let size = board.cells.group_size();
    let mut all = Vec::new();
    for y in 0..size {
        for x in 0..size {
            all.push(value_at(board, x, y));
        }
    }
    all
}

#[test]
fn blank_four_by_four_has_288_solutions() {
    let board = RectangularBoard::new(2, 2);
    assert_eq!(board.count_solutions(), 288);
}

#[test]
fn blank_four_by_four_solutions_are_solved_and_valid() {
    let board = RectangularBoard::new(2, 2);
    let solutions = board.solve();
    assert_eq!(solutions.len(), 288);
    for solution in &solutions {
        assert!(solution.is_solved());
        assert!(solution.is_valid_solution());
    }
}

#[test]
fn blank_four_by_four_solutions_are_all_different() {
    let board = RectangularBoard::new(2, 2);
    let solutions = board.solve();
    let grids: Vec<Vec<Option<usize>>> = solutions.iter().map(|s| values(&s.board)).collect();
    for i in 0..grids.len() {
        for j in (i + 1)..grids.len() {
            assert_ne!(grids[i], grids[j]);
        }
    }
}

#[test]
fn blank_two_by_two_solutions_come_in_order_of_the_pivot_values() {
    let board = RectangularBoard::new(2, 1);
    let solutions = board.solve();
    assert_eq!(solutions.len(), 2);
    assert_eq!(
        values(&solutions[0].board),
        vec![Some(0), Some(1), Some(1), Some(0)]
    );
    assert_eq!(
        values(&solutions[1].board),
        vec![Some(1), Some(0), Some(0), Some(1)]
    );
}

#[test]
fn blank_one_by_one_has_one_solution() {
    let board = RectangularBoard::new(1, 1);
    let solutions = board.solve();
    assert_eq!(solutions.len(), 1);
    assert_eq!(values(&solutions[0].board), vec![Some(0)]);
    assert_eq!(RectangularBoard::new(1, 1).count_solutions(), 1);
}

#[test]
fn count_agrees_with_solve() {
    let mut board = RectangularBoard::new(2, 2);
    board.board.prefill_value(&Coord::new(0, 0), 0);
    board.board.prefill_value(&Coord::new(1, 1), 1);
    let found = board.solve().len();
    assert_eq!(found, 24);
    assert_eq!(board.count_solutions(), 24);
}

#[test]
fn two_by_one_puzzle_has_the_one_solution() {
    let mut board = RectangularBoard::new(2, 1);
    board.board.prefill_value(&Coord::new(0, 0), 0);
    let solutions = board.solve();
    assert_eq!(solutions.len(), 1);
    assert_eq!(value_at(&solutions[0].board, 1, 0), Some(1));
    assert_eq!(
        values(&solutions[0].board),
        vec![Some(0), Some(1), Some(1), Some(0)]
    );
    assert!(solutions[0].is_valid_solution());
}

#[test]
fn propagation_is_idempotent() {
    let mut board = RectangularBoard::new(2, 2);
    board.board.prefill_value(&Coord::new(0, 0), 0);
    board.board.prefill_value(&Coord::new(1, 0), 1);
    board.board.prefill_value(&Coord::new(2, 0), 2);
    assert!(board.board.discover_new_values().is_ok());
    let first = counts(&board.board);
    let first_values = values(&board.board);
    let solved = board.is_solved();
    assert_eq!(value_at(&board.board, 3, 0), Some(3));
    assert!(board.board.cells.get_cell_coords_to_update().is_empty());
    assert!(board.board.discover_new_values().is_ok());
    assert_eq!(counts(&board.board), first);
    assert_eq!(values(&board.board), first_values);
    assert_eq!(board.is_solved(), solved);
}

#[test]
fn candidates_never_come_back() {
    let mut board = RectangularBoard::new(2, 2);
    let blank = counts(&board.board);
    assert_eq!(blank, vec![4; 16]);
    board.board.set_value(&Coord::new(0, 0), 2);
    let assigned = counts(&board.board);
    assert_eq!(
        assigned,
        vec![1, 3, 3, 3, 3, 3, 4, 4, 3, 4, 4, 4, 3, 4, 4, 4]
    );
    board.board.set_value(&Coord::new(3, 3), 2);
    let again = counts(&board.board);
    for i in 0..16 {
        assert!(again[i] <= assigned[i]);
    }
    assert!(board.board.discover_new_values().is_ok());
    let propagated = counts(&board.board);
    for i in 0..16 {
        assert!(propagated[i] <= again[i]);
    }
    for solution in board.solve() {
        let last = counts(&solution.board);
        for i in 0..16 {
            assert!(last[i] <= propagated[i]);
            assert_eq!(last[i], 1);
        }
    }
}

#[test]
fn conflicting_clues_are_infeasible() {
    let mut board = RectangularBoard::new(2, 1);
    board.board.prefill_value(&Coord::new(0, 0), 0);
    board.board.prefill_value(&Coord::new(1, 0), 0);
    assert!(board.solve().is_empty());
    let outcome = board.board.discover_new_values();
    assert_eq!(
        outcome,
        Err(String::from(
            "Value conflict detected, no solution for this puzzle"
        ))
    );
}

#[test]
fn conflicting_clues_in_a_row_leave_no_solution() {
    let mut board = RectangularBoard::new(3, 3);
    board.board.prefill_value(&Coord::new(0, 0), 5);
    board.board.prefill_value(&Coord::new(7, 0), 5);
    assert!(board.solve().is_empty());
    assert_eq!(board.count_solutions(), 0);
}

#[test]
fn conflicting_clues_in_a_column_leave_no_solution() {
    let mut board = RectangularBoard::new(2, 2);
    board.board.prefill_value(&Coord::new(1, 0), 3);
    board.board.prefill_value(&Coord::new(1, 3), 3);
    assert!(board.solve().is_empty());
}

#[test]
fn conflicting_clues_in_a_block_leave_no_solution() {
    let mut board = RectangularBoard::new(2, 2);
    board.board.prefill_value(&Coord::new(0, 0), 1);
    board.board.prefill_value(&Coord::new(1, 1), 1);
    assert!(board.solve().is_empty());
}

#[test]
fn solve_leaves_the_puzzle_as_it_was() {
    let mut board = RectangularBoard::new(2, 2);
    board.board.prefill_value(&Coord::new(0, 0), 0);
    let before = counts(&board.board);
    let solutions = board.solve();
    assert_eq!(solutions.len(), 72);
    assert_eq!(counts(&board.board), before);
    assert_eq!(solutions[0].block_width, 2);
    assert_eq!(solutions[0].block_height, 2);
}

#[test]
fn branch_on_a_candidate_and_on_a_value_ruled_out() {
    let mut board = RectangularBoard::new(2, 1);
    board.board.prefill_value(&Coord::new(0, 0), 0);
    let pivot = Coord::new(1, 0);
    assert!(board.board.solve_branch(&pivot, 0).is_empty());
    assert_eq!(board.board.count_branch(&pivot, 0), 0);
    let found = board.board.solve_branch(&pivot, 1);
    assert_eq!(found.len(), 1);
    assert_eq!(values(&found[0]), vec![Some(0), Some(1), Some(1), Some(0)]);
    assert_eq!(board.board.count_branch(&pivot, 1), 1);
}

#[test]
fn known_puzzle_is_solved_to_its_solution() {
    let mut board = RectangularBoard::new(2, 2);
    board.board.prefill_value(&Coord::new(0, 0), 0);
    board.board.prefill_value(&Coord::new(1, 0), 1);
    board.board.prefill_value(&Coord::new(2, 0), 2);
    board.board.prefill_value(&Coord::new(0, 1), 2);
    board.board.prefill_value(&Coord::new(2, 1), 0);
    board.board.prefill_value(&Coord::new(0, 2), 1);
    board.board.prefill_value(&Coord::new(1, 2), 0);
    let solutions = board.solve();
    assert_eq!(solutions.len(), 1);
    assert_eq!(
        values(&solutions[0].board),
        vec![
            Some(0), Some(1), Some(2), Some(3),
            Some(2), Some(3), Some(0), Some(1),
            Some(1), Some(0), Some(3), Some(2),
            Some(3), Some(2), Some(1), Some(0),
        ]
    );
    assert!(solutions[0].is_valid_solution());
    assert!(solutions[0].is_solved());
}

#[test]
fn propagation_changes_nothing_where_no_cell_is_pending() {
    let mut cells = CellContainer::new(3);
    cells.get_mut_cell(&Coord::new(0, 0)).set_value(1);
    cells.get_mut_cell(&Coord::new(1, 0)).set_value(1);
    cells.get_mut_cell(&Coord::new(2, 2)).strike_through(0);
    let groups = vec![Group::new(vec![
        Coord::new(0, 0),
        Coord::new(1, 0),
        Coord::new(2, 0),
    ])];
    let mut board = Board::new(cells, groups);
    let before = counts(&board);
    assert_eq!(before, vec![1, 1, 3, 3, 3, 3, 3, 3, 2]);
    assert!(board.cells.get_cell_coords_to_update().is_empty());
    assert_eq!(board.discover_new_values(), Ok(()));
    assert_eq!(counts(&board), before);
    assert!(board.get_cell(&Coord::new(0, 0)).is_set);
    assert!(!board.get_cell(&Coord::new(2, 2)).is_set);
    assert_eq!(board.discover_new_values(), Ok(()));
    assert_eq!(counts(&board), before);
}

#[test]
fn second_propagation_is_the_first_again() {
    let mut puzzle = RectangularBoard::new(3, 3);
    puzzle.board.prefill_value(&Coord::new(0, 0), 5);
    puzzle.board.prefill_value(&Coord::new(4, 4), 5);
    puzzle.board.prefill_value(&Coord::new(8, 7), 2);
    assert_eq!(puzzle.board.discover_new_values(), Ok(()));
    let first_counts = counts(&puzzle.board);
    let first_values = values(&puzzle.board);
    let first_set: Vec<bool> = (0..81)
        .map(|i| puzzle.board.get_cell(&Coord::new(i % 9, i / 9)).is_set)
        .collect();
    assert_eq!(puzzle.board.discover_new_values(), Ok(()));
    assert_eq!(counts(&puzzle.board), first_counts);
    assert_eq!(values(&puzzle.board), first_values);
    let second_set: Vec<bool> = (0..81)
        .map(|i| puzzle.board.get_cell(&Coord::new(i % 9, i / 9)).is_set)
        .collect();
    assert_eq!(second_set, first_set);
    assert_eq!(puzzle.board.groups.len(), 27);
}
