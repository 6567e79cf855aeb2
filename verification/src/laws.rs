use vstd::prelude::*;
use vstd::relations::injective_on;
use vstd::set_lib::*;

use crate::board::{BoardView, Placement};
use crate::cell::lemma_resolved_iff_singleton;
use crate::coord::Coord;
use crate::propagation::{
    lemma_candidate_can_place,
    Propagation,
    lemma_open_cells,
    lemma_place_consistent,
    lemma_refines_transitive,
};
use crate::search::{lemma_branch_progress, lemma_propagate};

verus! {

impl BoardView {
    /// Every group holds as many positions as there are values, each of them
    /// once.
    pub open spec fn groups_full(self) -> bool {
        forall|g: int|
            0 <= g < self.groups.len() ==> (#[trigger] self.groups[g]).len() == self.size()
                && self.groups[g].no_duplicates()
    }

    /// Whether this board is a solved board that the search may reach from
    /// `start`: well formed, covered, with every cell confirmed, with no
    /// candidate that `start` has not, and consistent if `start` is.
    pub open spec fn solved_from(self, start: BoardView) -> bool {
        &&& self.wf()
        &&& self.covered()
        &&& self.solved()
        &&& self.refines(start)
        &&& start.consistent() ==> self.consistent()
    }
}

/// Propagation changes nothing on a board on which no cell is pending, and
/// ends without a conflict.
pub proof fn lemma_propagate_at_rest(board: BoardView)
    requires
        board.wf(),
        board.at_rest(),
    ensures
        board.propagate() == (Propagation { board, feasible: true }),
{
}

/// Propagation that has reached a fixed point changes nothing when it is run
/// again: its outcome is its own outcome.
pub proof fn lemma_propagate_idempotent(board: BoardView)
    requires
        board.wf(),
        board.covered() || board.at_rest(),
        board.propagate().feasible,
    ensures
        board.propagate().board.at_rest(),
        board.propagate().board.propagate() == board.propagate(),
{
    if !board.at_rest() {
        lemma_propagate(board);
    }
}

/// Placing a value never raises the number of candidates of any cell, unless
/// it is placed on a cell that has no candidate left.
pub proof fn lemma_place_never_adds(board: BoardView, target: Coord, value: int, mode: Placement)
    requires
        board.wf(),
        board.covers(target) ==> board.remaining(target) > 0,
    ensures
        forall|coord: Coord|
            coord.within(board.size()) ==> #[trigger] board.place(target, value, mode).remaining(
                coord,
            ) <= board.remaining(coord),
{
    let after = board.place(target, value, mode);
    assert forall|coord: Coord| coord.within(board.size()) implies #[trigger] after.remaining(coord)
        <= board.remaining(coord) by {
        assert(board.cell(coord).wf());
        if board.share_group(target, coord) {
            if coord == target {
                assert(set![value].is_singleton());
                set![value].lemma_singleton_size();
            } else {
                lemma_len_subset(after.cell(coord).candidates, board.cell(coord).candidates);
            }
        }
    }
}

/// Propagation never raises the number of candidates of any cell.
pub proof fn lemma_propagate_never_adds(board: BoardView)
    requires
        board.wf(),
        board.covered(),
    ensures
        forall|coord: Coord|
            coord.within(board.size()) ==> #[trigger] board.propagate().board.remaining(coord)
                <= board.remaining(coord),
{
    lemma_propagate(board);
    let after = board.propagate().board;
    assert forall|coord: Coord| coord.within(board.size()) implies #[trigger] after.remaining(coord)
        <= board.remaining(coord) by {
        assert(after.cell(coord).candidates.len() <= board.cell(coord).candidates.len());
    }
}

/// No board that the search returns has, in any cell, more candidates than
/// the board that the search started from.
pub proof fn lemma_solutions_never_add(board: BoardView)
    requires
        board.wf(),
        board.covered(),
    ensures
        forall|k: int, coord: Coord|
            0 <= k < board.solutions().len() && coord.within(board.size()) ==> (
            #[trigger] board.solutions()[k]).remaining(coord) <= #[trigger] board.remaining(coord),
{
    lemma_solutions_solved_from(board);
    assert forall|k: int, coord: Coord|
        0 <= k < board.solutions().len() && coord.within(board.size()) implies (
    #[trigger] board.solutions()[k]).remaining(coord) <= #[trigger] board.remaining(coord) by {
        let solution = board.solutions()[k];
        assert(solution.solved_from(board));
        assert(solution.cell(coord).candidates.len() <= board.cell(coord).candidates.len());
    }
}

/// Every board that the search returns is solved, and it is a valid solution
/// where each group holds as many positions as there are values, each once.
pub proof fn lemma_solutions_valid(board: BoardView)
    requires
        board.wf(),
        board.covered(),
        board.consistent(),
    ensures
        forall|k: int| 0 <= k < board.solutions().len() ==> (#[trigger] board.solutions()[k]).solved(),
        board.groups_full() ==> forall|k: int|
            0 <= k < board.solutions().len() ==> (#[trigger] board.solutions()[k]).valid_solution(),
{
    lemma_solutions_solved_from(board);
    assert forall|k: int| 0 <= k < board.solutions().len() implies (
    #[trigger] board.solutions()[k]).solved() by {
        assert(board.solutions()[k].solved_from(board));
    }
    if board.groups_full() {
        assert forall|k: int| 0 <= k < board.solutions().len() implies (
        #[trigger] board.solutions()[k]).valid_solution() by {
            let solution = board.solutions()[k];
            assert(solution.solved_from(board));
            lemma_solved_is_valid(solution);
        }
    }
}

/// A consistent board with every cell confirmed is a valid solution, where
/// each group holds as many positions as there are values, each once.
pub proof fn lemma_solved_is_valid(board: BoardView)
    requires
        board.wf(),
        board.consistent(),
        board.solved(),
        board.groups_full(),
    ensures
        board.valid_solution(),
{
    assert forall|g: int| 0 <= g < board.groups.len() implies board.valid_group(
        #[trigger] board.groups[g],
    ) by {
        lemma_full_group_is_valid(board, g);
    }
}

/// The cells of one group of a consistent solved board hold different
/// values, so a group of as many cells as there are values holds each value.
proof fn lemma_full_group_is_valid(board: BoardView, g: int)
    requires
        board.wf(),
        board.consistent(),
        board.solved(),
        0 <= g < board.groups.len(),
        board.groups[g].len() == board.size(),
        board.groups[g].no_duplicates(),
    ensures
        board.valid_group(board.groups[g]),
{
    let group = board.groups[g];
    let size = board.size() as int;
    let value_at = |j: int| board.cell(group[j]).candidates.choose();
    let indices = set_int_range(0, size);
    let values = indices.map(value_at);
    lemma_int_range(0, size);
    assert forall|j: int| 0 <= j < size implies board.cell(#[trigger] group[j]).resolved() == Some(
        value_at(j),
    ) && 0 <= value_at(j) < size by {
        let coord = group[j];
        assert(coord.within(board.size()));
        assert(board.cell(coord).fixed);
        assert(board.cell(coord).settled());
        assert(board.cell(coord).wf());
        lemma_resolved_iff_singleton(board.cell(coord), value_at(j));
        assert(board.cell(coord).candidates.contains(value_at(j)));
    }
    assert(injective_on(value_at, indices)) by {
        assert forall|i: int, j: int|
            indices.contains(i) && indices.contains(j) && #[trigger] value_at(i)
                == #[trigger] value_at(j) implies i == j by {
            if i != j {
                let a = group[i];
                let b = group[j];
                assert(a != b);
                assert(board.groups[g].contains(a) && board.groups[g].contains(b));
                assert(board.share_group(a, b));
                assert(board.cell(a).fixed);
                assert(board.cell(a).resolved() == Some(value_at(i)));
                assert(board.cell(b).resolved() == Some(value_at(j)));
                assert(board.cell(a).wf());
                assert(board.cell(b).wf());
                lemma_resolved_iff_singleton(board.cell(a), value_at(i));
                lemma_resolved_iff_singleton(board.cell(b), value_at(j));
                assert(board.cell(a).candidates.contains(value_at(i)));
                assert(board.cell(b).candidates.contains(value_at(i)));
            }
        }
    }
    lemma_map_size(indices, values, value_at);
    assert(values.subset_of(indices)) by {
        assert forall|value: int| values.contains(value) implies indices.contains(value) by {
            let j = choose|j: int| indices.contains(j) && value == value_at(j);
            assert(board.cell(group[j]).resolved() == Some(value_at(j)));
        }
    }
    lemma_subset_equality(values, indices);
    assert forall|value: int| 0 <= value < board.size() implies #[trigger] board.group_holds(
        group,
        value,
        group.len() as int,
    ) by {
        assert(indices.contains(value));
        assert(values.contains(value));
        let j = choose|j: int| indices.contains(j) && value == value_at(j);
        assert(board.cell(group[j]).resolved() == Some(value));
    }
}

/// Every board among the solutions of a board is a solved board reached from
/// it.
pub proof fn lemma_solutions_solved_from(board: BoardView)
    requires
        board.wf(),
        board.covered(),
    ensures
        forall|k: int|
            0 <= k < board.solutions().len() ==> (#[trigger] board.solutions()[k]).solved_from(
                board,
            ),
    decreases board.open_count(), board.size() + 1,
{
    let outcome = board.propagate();
    lemma_propagate(board);
    if outcome.feasible && !outcome.board.solved() {
        match outcome.board.pivot() {
            Some(pivot) => {
                let chosen = choose|coord: Coord| outcome.board.is_pivot(coord);
                assert(outcome.board.is_pivot(chosen));
                lemma_open_cells(outcome.board, board);
                lemma_branches_solved_from(outcome.board, pivot, outcome.board.size() as int);
                assert(board.solutions() == outcome.board.branches(
                    pivot,
                    outcome.board.size() as int,
                ));
                assert forall|k: int| 0 <= k < board.solutions().len() implies (
                #[trigger] board.solutions()[k]).solved_from(board) by {
                    let solution = board.solutions()[k];
                    assert(solution.solved_from(outcome.board));
                    lemma_refines_transitive(solution, outcome.board, board);
                }
            },
            None => {},
        }
    }
}

/// Every board among the solutions of a branch is a solved board reached
/// from the board that branches.
pub proof fn lemma_branch_solved_from(board: BoardView, pivot: Coord, value: int)
    requires
        board.branches_on(pivot),
    ensures
        forall|k: int|
            0 <= k < board.branch(pivot, value).len() ==> (#[trigger] board.branch(
                pivot,
                value,
            )[k]).solved_from(board),
    decreases board.open_count(), 0int,
{
    if board.cell(pivot).candidates.contains(value) {
        let next = board.place(pivot, value, Placement::Assign);
        lemma_branch_progress(board, pivot, value);
        lemma_solutions_solved_from(next);
        if board.consistent() {
            assert(board.cell(pivot).wf());
            lemma_candidate_can_place(board, pivot, value);
            lemma_place_consistent(board, pivot, value, Placement::Assign);
        }
        assert(board.branch(pivot, value) == next.solutions());
        assert forall|k: int| 0 <= k < board.branch(pivot, value).len() implies (
        #[trigger] board.branch(pivot, value)[k]).solved_from(board) by {
            let solution = board.branch(pivot, value)[k];
            assert(solution.solved_from(next));
            lemma_refines_transitive(solution, next, board);
        }
    }
}

/// Every board among the solutions of the branches below a value is a solved
/// board reached from the board that branches.
pub proof fn lemma_branches_solved_from(board: BoardView, pivot: Coord, upto: int)
    requires
        board.branches_on(pivot),
    ensures
        forall|k: int|
            0 <= k < board.branches(pivot, upto).len() ==> (#[trigger] board.branches(
                pivot,
                upto,
            )[k]).solved_from(board),
    decreases board.open_count(), upto,
{
    if upto > 0 {
        lemma_branches_solved_from(board, pivot, upto - 1);
        lemma_branch_solved_from(board, pivot, upto - 1);
        let before = board.branches(pivot, upto - 1);
        let last = board.branch(pivot, upto - 1);
        assert(board.branches(pivot, upto) == before + last);
        assert forall|k: int| 0 <= k < board.branches(pivot, upto).len() implies (
        #[trigger] board.branches(pivot, upto)[k]).solved_from(board) by {
            if k < before.len() {
                assert(before[k].solved_from(board));
            } else {
                assert(last[k - before.len()].solved_from(board));
            }
        }
    }
}

} // verus!
