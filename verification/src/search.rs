use rayon::iter::{IntoParallelIterator, ParallelIterator};
use vstd::prelude::*;

use crate::board::{Board, BoardView, Placement};
use crate::coord::Coord;
use crate::laws::{lemma_solutions_solved_from, lemma_solutions_valid};
use crate::propagation::{
    lemma_candidate_can_place,
    lemma_place_consistent,
    lemma_open_cells,
    lemma_open_count_less,
    lemma_place_refines,
    lemma_place_wf,
    lemma_batch,
    lemma_batch_progress,
    lemma_newly_determined,
    lemma_refines_transitive,
};

verus! {

impl BoardView {
    /// The number of candidates that are left for the cell at `coord`.
    pub open spec fn remaining(self, coord: Coord) -> nat {
        self.cell(coord).candidates.len()
    }

    /// Whether `coord` is the open cell to branch on: no open cell has fewer
    /// candidates left, and none with as few comes before it when the grid is
    /// read row by row.
    pub open spec fn is_pivot(self, coord: Coord) -> bool {
        &&& coord.within(self.size())
        &&& !self.cell(coord).fixed
        &&& forall|other: Coord|
            #![trigger self.cell(other)]
            other.within(self.size()) && !self.cell(other).fixed ==> self.remaining(coord)
                < self.remaining(other) || (self.remaining(coord) == self.remaining(other)
                && !other.precedes(coord))
    }

    /// Whether `best` is what a scan for the pivot holds once it has read the
    /// rows before `row` and, of that row, the columns before `column`:
    /// nothing if every cell read is confirmed, else the pivot among the cells
    /// read.
    pub open spec fn pivot_so_far(self, best: Option<Coord>, row: int, column: int) -> bool {
        match best {
            Some(coord) => {
                &&& coord.within(self.size())
                &&& !self.cell(coord).fixed
                &&& coord.y < row || (coord.y == row && coord.x < column)
                &&& forall|other: Coord|
                    #![trigger self.cell(other)]
                    other.within(self.size()) && !self.cell(other).fixed && (other.y < row || (
                    other.y == row && other.x < column)) ==> self.remaining(coord)
                        < self.remaining(other) || (self.remaining(coord) == self.remaining(other)
                        && !other.precedes(coord))
            },
            None => forall|other: Coord|
                #![trigger self.cell(other)]
                other.within(self.size()) && (other.y < row || (other.y == row && other.x
                    < column)) ==> self.cell(other).fixed,
        }
    }

    /// The open cell to branch on, if there is an open cell.
    pub open spec fn pivot(self) -> Option<Coord> {
        if exists|coord: Coord| self.is_pivot(coord) {
            Some(choose|coord: Coord| self.is_pivot(coord))
        } else {
            None
        }
    }

    /// Whether the search may branch on `pivot`: the board is well formed and
    /// covered, and `pivot` is an open cell of it.
    pub open spec fn branches_on(self, pivot: Coord) -> bool {
        &&& self.wf()
        &&& self.covered()
        &&& pivot.within(self.size())
        &&& !self.cell(pivot).fixed
    }

    /// Every solved board that the search reaches from this board, in the
    /// order of the search: it propagates, and if cells are still open it
    /// branches on the pivot, one branch for each candidate of it, in
    /// increasing order of the values.
    pub open spec fn solutions(self) -> Seq<BoardView>
        decreases self.open_count(), self.size() + 1,
        when self.wf() && self.covered()
        via Self::solutions_decreases
    {
        let outcome = self.propagate();
        if !outcome.feasible {
            Seq::empty()
        } else if outcome.board.solved() {
            seq![outcome.board]
        } else {
            match outcome.board.pivot() {
                Some(pivot) => outcome.board.branches(pivot, outcome.board.size() as int),
                None => Seq::empty(),
            }
        }
    }

    /// The solutions of the branch that confirms `value` for `pivot`: none
    /// if `value` is no candidate of `pivot`.
    pub open spec fn branch(self, pivot: Coord, value: int) -> Seq<BoardView>
        decreases self.open_count(), 0int,
        when self.branches_on(pivot)
        via Self::branch_decreases
    {
        if self.cell(pivot).candidates.contains(value) {
            self.place(pivot, value, Placement::Assign).solutions()
        } else {
            Seq::empty()
        }
    }

    /// The solutions of the branches for the values below `upto`, one branch
    /// after the other in increasing order of the values.
    pub open spec fn branches(self, pivot: Coord, upto: int) -> Seq<BoardView>
        decreases self.open_count(), upto,
        when self.branches_on(pivot)
        via Self::branches_decreases
    {
        if upto <= 0 {
            Seq::empty()
        } else {
            self.branches(pivot, upto - 1) + self.branch(pivot, upto - 1)
        }
    }

    #[via_fn]
    proof fn solutions_decreases(self) {
        lemma_propagate(self);
        lemma_open_cells(self.propagate().board, self);
    }

    #[via_fn]
    proof fn branch_decreases(self, pivot: Coord, value: int) {
        if self.cell(pivot).candidates.contains(value) {
            lemma_branch_progress(self, pivot, value);
        }
    }

    #[via_fn]
    proof fn branches_decreases(self, pivot: Coord, upto: int) {
    }
}

/// Propagation keeps the board well formed, covered and, if it was,
/// consistent; it only rules candidates out; and where it is feasible, it
/// ends on a board without pending cells.
pub proof fn lemma_propagate(board: BoardView)
    requires
        board.wf(),
        board.covered(),
    ensures
        board.propagate().board.wf(),
        board.propagate().board.covered(),
        board.propagate().board.refines(board),
        board.consistent() ==> board.propagate().board.consistent(),
        board.propagate().feasible ==> board.propagate().board.grid.newly_determined().len() == 0,
    decreases board.open_count(),
{
    let coords = board.grid.newly_determined();
    lemma_newly_determined(board);
    lemma_batch(board, coords);
    if coords.len() != 0 {
        let step = board.propagate_batch(coords);
        if step.feasible {
            lemma_batch_progress(board);
            lemma_propagate(step.board);
            lemma_refines_transitive(board.propagate().board, step.board, board);
        }
    }
}

/// Confirming a candidate for an open cell leaves fewer cells open.
pub proof fn lemma_branch_progress(board: BoardView, pivot: Coord, value: int)
    requires
        board.branches_on(pivot),
        board.cell(pivot).candidates.contains(value),
    ensures
        board.place(pivot, value, Placement::Assign).wf(),
        board.place(pivot, value, Placement::Assign).covered(),
        board.place(pivot, value, Placement::Assign).refines(board),
        board.place(pivot, value, Placement::Assign).open_count() < board.open_count(),
{
    let next = board.place(pivot, value, Placement::Assign);
    assert(board.cell(pivot).wf());
    lemma_place_wf(board, pivot, value, Placement::Assign);
    lemma_place_refines(board, pivot, value, Placement::Assign);
    assert(board.covers(pivot));
    assert(next.cell(pivot).fixed);
    lemma_open_count_less(next, board, pivot);
}

/// A board has at most one pivot: what a scan of the whole grid holds at its
/// end. It has none exactly when it is solved.
pub proof fn lemma_pivot_found(board: BoardView, best: Option<Coord>)
    requires
        board.wf(),
        board.pivot_so_far(best, board.size() as int, 0),
    ensures
        board.pivot() == best,
        best is None <==> board.solved(),
        best matches Some(coord) ==> board.is_pivot(coord),
{
    match best {
        Some(coord) => {
            assert(board.is_pivot(coord));
            let chosen = choose|coord: Coord| board.is_pivot(coord);
            assert(board.is_pivot(chosen));
            assert(board.cell(chosen).fixed == false);
            assert(board.cell(coord).fixed == false);
        },
        None => {
            assert forall|coord: Coord| !board.is_pivot(coord) by {
                if coord.within(board.size()) {
                    assert(board.cell(coord).fixed);
                }
            }
        },
    }
}

impl Board {
    /// The open cell with the fewest candidates left, the first such cell
    /// when the grid is read row by row; none if every cell is confirmed.
    pub fn find_pivot_coord(&self) -> (pivot: Option<Coord>)
        requires
            self.wf(),
        ensures
            pivot == self@.pivot(),
            pivot is None <==> self@.solved(),
            pivot matches Some(coord) ==> self@.is_pivot(coord),
    {
        let group_size = self.cells.group_size();
        let mut result: Option<(Coord, usize)> = None;
        let ghost mut best: Option<Coord> = None;
        let mut y: usize = 0;
        while y < group_size
            invariant
                self.wf(),
                group_size == self@.size(),
                y <= group_size,
                self@.pivot_so_far(best, y as int, 0),
                match result {
                    Some((coord, count)) => best == Some(coord) && count == self@.remaining(coord),
                    None => best is None,
                },
            decreases group_size - y,
        {
            let mut x: usize = 0;
            while x < group_size
                invariant
                    self.wf(),
                    group_size == self@.size(),
                    y < group_size,
                    x <= group_size,
                    self@.pivot_so_far(best, y as int, x as int),
                    match result {
                        Some((coord, count)) => best == Some(coord) && count == self@.remaining(
                            coord,
                        ),
                        None => best is None,
                    },
                decreases group_size - x,
            {
                let coord = Coord::new(x, y);
                let cell = self.get_cell(&coord);
                if !cell.is_set {
                    let count = cell.possibilities();
                    match result {
                        Some((_, least)) => {
                            if count < least {
                                result = Some((coord, count));
                                proof {
                                    best = Some(coord);
                                }
                            }
                        },
                        None => {
                            result = Some((coord, count));
                            proof {
                                best = Some(coord);
                            }
                        },
                    }
                }
                x += 1;
            }
            y += 1;
        }
        proof {
            lemma_pivot_found(self@, best);
        }
        match result {
            Some((coord, _)) => Some(coord),
            None => None,
        }
    }
}

/// The states of a sequence of boards.
pub open spec fn board_views(boards: Seq<Board>) -> Seq<BoardView> {
    boards.map_values(|board: Board| board@)
}

/// Runs the branches of `puzzle` on `pivot`, one for each value below
/// `upto`, on rayon's thread pool: `into_par_iter` on the range of the
/// values, `flat_map` with `Board::solve_branch`, and `collect` into a `Vec`.
/// rayon keeps the order of the items of a range, so the result holds what
/// `solve_branch` returned for value 0, then what it returned for value 1,
/// and so on; what `solve_branch` returns for a value is stated, and proved,
/// at `solve_branch`.
#[verifier::external_body]
fn solve_branches(puzzle: &Board, pivot: &Coord, upto: usize) -> (solutions: Vec<Board>)
    requires
        puzzle.wf(),
        puzzle@.consistent(),
        puzzle@.branches_on(*pivot),
        upto <= puzzle@.size(),
    ensures
        board_views(solutions@) == puzzle@.branches(*pivot, upto as int),
        forall|i: int| 0 <= i < solutions@.len() ==> (#[trigger] solutions@[i]).wf(),
{
    (0..upto).into_par_iter().flat_map(|value| puzzle.solve_branch(pivot, value)).collect()
}

/// Counts the solutions of the branches of `puzzle` on `pivot`, one for each
/// value below `upto`, on rayon's thread pool: `into_par_iter` on the range
/// of the values, `map` with `Board::count_branch`, and `sum`. The result is
/// the sum of what `count_branch` returned for the values; the sum must fit,
/// since rayon adds with `+`.
#[verifier::external_body]
fn count_branches(puzzle: &Board, pivot: &Coord, upto: usize) -> (count: usize)
    requires
        puzzle.wf(),
        puzzle@.consistent(),
        puzzle@.branches_on(*pivot),
        upto <= puzzle@.size(),
        puzzle@.branches(*pivot, upto as int).len() <= usize::MAX,
    ensures
        count == puzzle@.branches(*pivot, upto as int).len(),
{
    (0..upto).into_par_iter().map(|value| puzzle.count_branch(pivot, value)).sum()
}

impl Board {
    /// The solutions of the branch that confirms `value` for the open cell
    /// `pivot`: none if `value` is no candidate of that cell.
    pub fn solve_branch(&self, pivot: &Coord, value: usize) -> (solutions: Vec<Board>)
        requires
            self.wf(),
            self@.consistent(),
            self@.branches_on(*pivot),
            value < self@.size(),
        ensures
            board_views(solutions@) == self@.branch(*pivot, value as int),
            forall|i: int| 0 <= i < solutions@.len() ==> (#[trigger] solutions@[i]).wf(),
    {
        let pivot_cell = self.get_cell(pivot);
        if pivot_cell.possible_values[value] {
            let mut subpuzzle = self.clone();
            proof {
                lemma_candidate_can_place(self@, *pivot, value as int);
                lemma_place_consistent(self@, *pivot, value as int, Placement::Assign);
                lemma_branch_progress(self@, *pivot, value as int);
            }
            subpuzzle.set_value(pivot, value);
            subpuzzle.solve()
        } else {
            let none: Vec<Board> = Vec::new();
            assert(board_views(none@) =~= Seq::<BoardView>::empty());
            none
        }
    }

    /// Every solution of this puzzle: the solved boards that propagation and
    /// branching on the pivot reach, branch after branch in increasing order
    /// of the pivot's candidates.
    pub fn solve(&self) -> (solutions: Vec<Self>)
        requires
            self.wf(),
            self@.consistent(),
            self@.covered(),
        ensures
            board_views(solutions@) == self@.solutions(),
            forall|i: int|
                0 <= i < solutions@.len() ==> {
                    &&& (#[trigger] solutions@[i]).wf()
                    &&& solutions@[i]@.solved_from(self@)
                    &&& self@.groups_full() ==> solutions@[i]@.valid_solution()
                },
    {
        let mut puzzle = self.clone();
        let solutions = match puzzle.discover_new_values() {
            Ok(()) => {
                if puzzle.is_solved() {
                    let solutions = vec![puzzle];
                    assert(board_views(solutions@) =~= seq![puzzle@]);
                    solutions
                } else {
                    let pivot = puzzle.find_pivot_coord();
                    match pivot {
                        Some(p) => solve_branches(&puzzle, &p, puzzle.group_size()),
                        None => {
                            let none: Vec<Board> = Vec::new();
                            assert(board_views(none@) =~= Seq::<BoardView>::empty());
                            none
                        },
                    }
                }
            },
            Err(_msg) => {
                let none: Vec<Board> = Vec::new();
                assert(board_views(none@) =~= Seq::<BoardView>::empty());
                none
            },
        };
        proof {
            lemma_solutions_solved_from(self@);
            lemma_solutions_valid(self@);
            assert forall|i: int| 0 <= i < solutions@.len() implies {
                &&& (#[trigger] solutions@[i])@.solved_from(self@)
                &&& self@.groups_full() ==> solutions@[i]@.valid_solution()
            } by {
                assert(board_views(solutions@)[i] == solutions@[i]@);
                assert(self@.solutions()[i].solved_from(self@));
            }
        }
        solutions
    }

    /// The number of solutions of the branch that confirms `value` for the
    /// open cell `pivot`: none if `value` is no candidate of that cell.
    pub fn count_branch(&self, pivot: &Coord, value: usize) -> (count: usize)
        requires
            self.wf(),
            self@.consistent(),
            self@.branches_on(*pivot),
            value < self@.size(),
            self@.branch(*pivot, value as int).len() <= usize::MAX,
        ensures
            count == self@.branch(*pivot, value as int).len(),
    {
        let pivot_cell = self.get_cell(pivot);
        if pivot_cell.possible_values[value] {
            let mut subpuzzle = self.clone();
            proof {
                lemma_candidate_can_place(self@, *pivot, value as int);
                lemma_place_consistent(self@, *pivot, value as int, Placement::Assign);
                lemma_branch_progress(self@, *pivot, value as int);
            }
            subpuzzle.set_value(pivot, value);
            subpuzzle.count_solutions()
        } else {
            0
        }
    }

    /// The number of solutions of this puzzle, counted without keeping the
    /// solved boards. The number must fit in a `usize`.
    pub fn count_solutions(self) -> (count: usize)
        requires
            self.wf(),
            self@.consistent(),
            self@.covered(),
            self@.solutions().len() <= usize::MAX,
        ensures
            count == self@.solutions().len(),
    {
        let mut puzzle = self;
        match puzzle.discover_new_values() {
            Ok(()) => {
                if puzzle.is_solved() {
                    1
                } else {
                    let pivot = puzzle.find_pivot_coord();
                    match pivot {
                        Some(p) => count_branches(&puzzle, &p, puzzle.group_size()),
                        None => 0,
                    }
                }
            },
            Err(_msg) => 0,
        }
    }
}

} // verus!
