use vstd::prelude::*;
use vstd::set_lib::*;

use crate::board::{Board, BoardView, Placement};
use crate::cell::lemma_resolved_iff_singleton;
use crate::cell_container::{lemma_row_major, row_major};
use crate::coord::Coord;

verus! {

/// The outcome of constraint propagation: the board it ended on, and whether
/// it ended without meeting a cell that has no candidate left.
pub struct Propagation {
    pub board: BoardView,
    pub feasible: bool,
}

impl BoardView {
    /// The positions of the cells that have not been confirmed.
    pub open spec fn open_cells(self) -> Set<Coord> {
        self.grid.cells.dom().filter(|coord: Coord| !self.cell(coord).fixed)
    }

    /// The number of cells that have not been confirmed.
    pub open spec fn open_count(self) -> nat {
        self.open_cells().len()
    }

    /// Whether each cell of `self` holds no candidate that the cell at the
    /// same position of `earlier` does not hold, and is confirmed if that one
    /// is: `self` has come from `earlier` by ruling candidates out.
    pub open spec fn refines(self, earlier: BoardView) -> bool {
        &&& self.size() == earlier.size()
        &&& self.groups == earlier.groups
        &&& forall|coord: Coord|
            #![trigger self.cell(coord)]
            coord.within(self.size()) ==> {
                &&& self.cell(coord).candidates.subset_of(earlier.cell(coord).candidates)
                &&& self.cell(coord).candidates.len() <= earlier.cell(coord).candidates.len()
                &&& earlier.cell(coord).fixed ==> self.cell(coord).fixed
            }
    }

    /// Confirms the cells at `coords` one after the other, each with the one
    /// value that is left for it at that moment. Stops, infeasible, at the
    /// first cell that is not down to one value.
    pub open spec fn propagate_batch(self, coords: Seq<Coord>) -> Propagation
        decreases coords.len(),
    {
        if coords.len() == 0 {
            Propagation { board: self, feasible: true }
        } else {
            match self.cell(coords[0]).resolved() {
                Some(value) => self.place(coords[0], value, Placement::Assign).propagate_batch(
                    coords.skip(1),
                ),
                None => Propagation { board: self, feasible: false },
            }
        }
    }

    /// No cell is pending: propagation has nothing to do.
    pub open spec fn at_rest(self) -> bool {
        self.grid.newly_determined().len() == 0
    }

    /// Constraint propagation: as long as the grid holds pending cells,
    /// confirms them in one batch and looks again.
    pub open spec fn propagate(self) -> Propagation
        decreases self.open_count(),
        when self.wf() && (self.covered() || self.at_rest())
        via Self::propagate_decreases
    {
        let coords = self.grid.newly_determined();
        if coords.len() == 0 {
            Propagation { board: self, feasible: true }
        } else {
            let step = self.propagate_batch(coords);
            if step.feasible {
                step.board.propagate()
            } else {
                step
            }
        }
    }

    #[via_fn]
    proof fn propagate_decreases(self) {
        let coords = self.grid.newly_determined();
        if coords.len() != 0 {
            let step = self.propagate_batch(coords);
            if step.feasible {
                lemma_batch_progress(self);
            }
        }
    }
}

/// The value that a well-formed cell is resolved to is one of its candidates,
/// and so lies below its size.
pub proof fn lemma_resolved_candidate(board: BoardView, coord: Coord)
    requires
        board.wf(),
        coord.within(board.size()),
        board.cell(coord).resolved() is Some,
    ensures
        board.cell(coord).candidates.contains(board.cell(coord).resolved()->0),
        0 <= board.cell(coord).resolved()->0 < board.size(),
{
    let cell = board.cell(coord);
    assert(cell.wf());
    lemma_resolved_iff_singleton(cell, cell.resolved()->0);
    assert(cell.candidates.contains(cell.resolved()->0));
}

/// The pending cells lie inside the grid and are open.
pub proof fn lemma_newly_determined(board: BoardView)
    requires
        board.wf(),
    ensures
        forall|i: int|
            0 <= i < board.grid.newly_determined().len() ==> {
                let coord = #[trigger] board.grid.newly_determined()[i];
                coord.within(board.size()) && board.grid.pending(coord)
            },
{
    let all = row_major(board.size());
    let pending = board.grid.is_pending();
    lemma_row_major(board.size());
    assert forall|i: int| 0 <= i < all.filter(pending).len() implies {
        let coord = #[trigger] all.filter(pending)[i];
        coord.within(board.size()) && board.grid.pending(coord)
    } by {
        let coord = all.filter(pending)[i];
        all.lemma_filter_pred(pending, i);
        assert(all.filter(pending).contains(coord));
        all.lemma_filter_contains_rev(pending, coord);
    }
}

/// Placing a value keeps the board well formed, with the same groups.
pub proof fn lemma_place_wf(board: BoardView, target: Coord, value: int, mode: Placement)
    requires
        board.wf(),
        0 <= value < board.size(),
    ensures
        board.place(target, value, mode).wf(),
        board.place(target, value, mode).size() == board.size(),
        board.place(target, value, mode).groups == board.groups,
        board.covered() ==> board.place(target, value, mode).covered(),
{
    let after = board.place(target, value, mode);
    assert(after.grid.cells.dom() =~= board.grid.cells.dom());
    assert forall|coord: Coord|
        #![trigger after.grid.cells[coord]]
        coord.within(after.size()) implies after.grid.cells[coord].size == after.size()
        && after.grid.cells[coord].wf() by {
        assert(board.grid.cells[coord].wf());
    }
    if board.covered() {
        assert forall|coord: Coord| coord.within(after.size()) implies #[trigger] after.covers(
            coord,
        ) by {
            assert(board.covers(coord));
        }
    }
}

/// On a consistent board, a value that is a candidate of a cell may be
/// placed there.
pub proof fn lemma_candidate_can_place(board: BoardView, target: Coord, value: int)
    requires
        board.wf(),
        board.consistent(),
        board.cell(target).candidates.contains(value),
    ensures
        board.can_place(target, value),
{
    assert forall|at: Coord| at != target && #[trigger] board.share_group(target, at) implies board.cell(
        at,
    ).may_strike(value) by {
        if board.cell(at).fixed && board.cell(at).resolved() == Some(value) {
            lemma_share_group_symmetric(board, target, at);
            lemma_share_group_within(board, target, at);
            lemma_resolved_candidate(board, at);
            assert(board.cell(at).candidates.contains(value));
        }
    }
}

/// Sharing a group goes both ways.
pub proof fn lemma_share_group_symmetric(board: BoardView, a: Coord, b: Coord)
    requires
        board.share_group(a, b),
    ensures
        board.share_group(b, a),
{
    let g = choose|g: int|
        0 <= g < board.groups.len() && #[trigger] board.groups[g].contains(a)
            && board.groups[g].contains(b);
    assert(board.groups[g].contains(b) && board.groups[g].contains(a));
}

/// Positions that share a group lie inside the grid.
pub proof fn lemma_share_group_within(board: BoardView, a: Coord, b: Coord)
    requires
        board.wf(),
        board.share_group(a, b),
    ensures
        a.within(board.size()),
        b.within(board.size()),
        board.covers(a),
        board.covers(b),
{
    let g = choose|g: int|
        0 <= g < board.groups.len() && #[trigger] board.groups[g].contains(a)
            && board.groups[g].contains(b);
    let i = choose|i: int| 0 <= i < board.groups[g].len() && board.groups[g][i] == a;
    let j = choose|j: int| 0 <= j < board.groups[g].len() && board.groups[g][j] == b;
    assert(board.groups[g][i].within(board.size()));
    assert(board.groups[g][j].within(board.size()));
    assert(board.groups[g].contains(a) && board.groups[g].contains(a));
    assert(board.groups[g].contains(b) && board.groups[g].contains(b));
}

/// Placing a value that may be placed keeps a consistent board consistent.
pub proof fn lemma_place_consistent(board: BoardView, target: Coord, value: int, mode: Placement)
    requires
        board.wf(),
        board.consistent(),
        board.can_place(target, value),
        0 <= value < board.size(),
    ensures
        board.place(target, value, mode).consistent(),
{
    let after = board.place(target, value, mode);
    lemma_place_wf(board, target, value, mode);
    assert forall|coord: Coord| coord.within(after.size()) implies (#[trigger] after.cell(
        coord,
    )).settled() by {
        assert(board.cell(coord).settled());
        assert(board.cell(coord).wf());
        if board.share_group(target, coord) {
            if coord == target {
                assert(set![value].is_singleton());
                set![value].lemma_singleton_size();
            } else if board.cell(coord).fixed {
                lemma_resolved_iff_singleton(board.cell(coord), value);
                assert(board.cell(coord).resolved() != Some(value));
                let own = board.cell(coord).resolved()->0;
                lemma_resolved_iff_singleton(board.cell(coord), own);
                assert(board.cell(coord).candidates.remove(value) =~= board.cell(coord).candidates);
            }
        }
    }
    assert forall|a: Coord, b: Coord, w: int|
        a != b && #[trigger] after.share_group(a, b) && after.cell(a).fixed
            && #[trigger] after.cell(a).candidates.contains(w) implies !after.cell(
        b,
    ).candidates.contains(w) by {
        assert(board.share_group(a, b));
        lemma_share_group_within(board, a, b);
        lemma_share_group_symmetric(board, a, b);
        if a == target {
            assert(board.covers(target));
            assert(w == value);
        } else {
            assert(board.cell(a).fixed);
            assert(board.cell(a).candidates.contains(w));
            assert(!board.cell(b).candidates.contains(w));
            if b == target && w == value {
                assert(board.cell(a).settled());
                assert(board.cell(a).wf());
                assert(board.cell(a).candidates.contains(board.cell(a).candidates.choose()));
                lemma_resolved_iff_singleton(board.cell(a), board.cell(a).candidates.choose());
                assert(board.cell(a).resolved() == Some(value));
                assert(board.cell(a).may_strike(value));
            }
        }
    }
}

/// Placing a value that is a candidate of its target adds no candidate to
/// any cell and unconfirms none.
pub proof fn lemma_place_refines(board: BoardView, target: Coord, value: int, mode: Placement)
    requires
        board.wf(),
        board.covers(target) ==> board.cell(target).candidates.contains(value),
    ensures
        board.place(target, value, mode).refines(board),
{
    let after = board.place(target, value, mode);
    assert forall|coord: Coord| #![trigger after.cell(coord)] coord.within(after.size()) implies {
        &&& after.cell(coord).candidates.subset_of(board.cell(coord).candidates)
        &&& after.cell(coord).candidates.len() <= board.cell(coord).candidates.len()
        &&& board.cell(coord).fixed ==> after.cell(coord).fixed
    } by {
        assert(board.cell(coord).wf());
        lemma_len_subset(after.cell(coord).candidates, board.cell(coord).candidates);
    }
}

/// Ruling candidates out can be done in steps.
pub proof fn lemma_refines_transitive(last: BoardView, middle: BoardView, first: BoardView)
    requires
        last.refines(middle),
        middle.refines(first),
    ensures
        last.refines(first),
{
    assert forall|coord: Coord| #![trigger last.cell(coord)] coord.within(last.size()) implies {
        &&& last.cell(coord).candidates.subset_of(first.cell(coord).candidates)
        &&& last.cell(coord).candidates.len() <= first.cell(coord).candidates.len()
        &&& first.cell(coord).fixed ==> last.cell(coord).fixed
    } by {
        assert(middle.cell(coord).candidates.subset_of(first.cell(coord).candidates));
    }
}

/// A batch keeps the board well formed, covered and, if it was, consistent;
/// it only rules candidates out; and where it is feasible, every cell it was
/// given has been confirmed.
pub proof fn lemma_batch(board: BoardView, coords: Seq<Coord>)
    requires
        board.wf(),
        forall|i: int| 0 <= i < coords.len() ==> (#[trigger] coords[i]).within(board.size()),
    ensures
        board.propagate_batch(coords).board.wf(),
        board.propagate_batch(coords).board.refines(board),
        board.covered() ==> board.propagate_batch(coords).board.covered(),
        board.consistent() ==> board.propagate_batch(coords).board.consistent(),
        board.covered() && board.propagate_batch(coords).feasible ==> forall|i: int|
            0 <= i < coords.len() ==> board.propagate_batch(coords).board.cell(
                #[trigger] coords[i],
            ).fixed,
    decreases coords.len(),
{
    let outcome = board.propagate_batch(coords);
    if coords.len() == 0 {
    } else {
        let first = coords[0];
        assert(first.within(board.size()));
        match board.cell(first).resolved() {
            Some(value) => {
                let next = board.place(first, value, Placement::Assign);
                let rest = coords.skip(1);
                lemma_resolved_candidate(board, first);
                lemma_place_wf(board, first, value, Placement::Assign);
                lemma_place_refines(board, first, value, Placement::Assign);
                assert forall|i: int| 0 <= i < rest.len() implies (#[trigger] rest[i]).within(
                    next.size(),
                ) by {
                    assert(rest[i] == coords[i + 1]);
                }
                lemma_batch(next, rest);
                lemma_refines_transitive(outcome.board, next, board);
                if board.consistent() {
                    lemma_candidate_can_place(board, first, value);
                    lemma_place_consistent(board, first, value, Placement::Assign);
                }
                if board.covered() && outcome.feasible {
                    assert(board.covers(first));
                    assert(next.cell(first).fixed);
                    assert forall|i: int| 0 <= i < coords.len() implies outcome.board.cell(
                        #[trigger] coords[i],
                    ).fixed by {
                        if i > 0 {
                            assert(rest[i - 1] == coords[i]);
                        }
                    }
                }
            },
            None => {},
        }
    }
}

/// The open cells are finitely many, and a board that refines another has no
/// open cell that the other has not.
pub proof fn lemma_open_cells(later: BoardView, earlier: BoardView)
    requires
        later.wf(),
        earlier.wf(),
        later.refines(earlier),
    ensures
        later.open_cells().finite(),
        earlier.open_cells().finite(),
        later.open_cells().subset_of(earlier.open_cells()),
        later.open_count() <= earlier.open_count(),
{
    assert(later.open_cells().subset_of(later.grid.cells.dom()));
    assert(earlier.open_cells().subset_of(earlier.grid.cells.dom()));
    lemma_len_subset(later.open_cells(), later.grid.cells.dom());
    lemma_len_subset(earlier.open_cells(), earlier.grid.cells.dom());
    assert forall|coord: Coord| later.open_cells().contains(coord) implies earlier.open_cells().contains(
        coord,
    ) by {
        assert(!later.cell(coord).fixed);
    }
    lemma_len_subset(later.open_cells(), earlier.open_cells());
}

/// A board that refines another and has confirmed a cell that is open in the
/// other has fewer open cells.
pub proof fn lemma_open_count_less(later: BoardView, earlier: BoardView, coord: Coord)
    requires
        later.wf(),
        earlier.wf(),
        later.refines(earlier),
        coord.within(earlier.size()),
        !earlier.cell(coord).fixed,
        later.cell(coord).fixed,
    ensures
        later.open_count() < earlier.open_count(),
{
    lemma_open_cells(later, earlier);
    let fewer = earlier.open_cells().remove(coord);
    assert(earlier.open_cells().contains(coord));
    assert(later.open_cells().subset_of(fewer));
    lemma_len_subset(later.open_cells(), fewer);
}

/// A feasible batch over the pending cells of a board, where there are any,
/// leaves fewer cells open.
pub proof fn lemma_batch_progress(board: BoardView)
    requires
        board.wf(),
        board.covered(),
        board.grid.newly_determined().len() > 0,
        board.propagate_batch(board.grid.newly_determined()).feasible,
    ensures
        board.propagate_batch(board.grid.newly_determined()).board.wf(),
        board.propagate_batch(board.grid.newly_determined()).board.covered(),
        board.propagate_batch(board.grid.newly_determined()).board.open_count()
            < board.open_count(),
{
    let coords = board.grid.newly_determined();
    let outcome = board.propagate_batch(coords);
    lemma_newly_determined(board);
    lemma_batch(board, coords);
    let first = coords[0];
    assert(first.within(board.size()) && board.grid.pending(first));
    assert(outcome.board.cell(first).fixed);
    lemma_open_count_less(outcome.board, board, first);
}

impl Board {
    /// Constraint propagation: confirms every cell that is down to one value,
    /// which rules that value out for the cells that share a group with it,
    /// until no such cell is left. Reports a conflict when a cell that was
    /// down to one value has lost it before its turn came.
    pub fn discover_new_values(&mut self) -> (outcome: Result<(), String>)
        requires
            old(self).wf(),
            old(self)@.at_rest() || (old(self)@.consistent() && old(self)@.covered()),
        ensures
            final(self).wf(),
            old(self)@.consistent() ==> final(self)@.consistent(),
            old(self)@.covered() ==> final(self)@.covered(),
            final(self)@ == old(self)@.propagate().board,
            final(self)@.refines(old(self)@),
            outcome is Ok <==> old(self)@.propagate().feasible,
            outcome is Ok ==> final(self)@.at_rest(),
            old(self)@.at_rest() ==> outcome is Ok && final(self)@ == old(self)@,
            outcome matches Err(message) ==> message@
                == "Value conflict detected, no solution for this puzzle"@,
        decreases old(self)@.open_count(),
    {
        let coords_to_update = self.cells.get_cell_coords_to_update();
        let ghost before = self@;
        let ghost coords = coords_to_update@;
        proof {
            if coords.len() > 0 {
                crate::search::lemma_propagate(before);
            }
            lemma_newly_determined(before);
            assert(coords.skip(0) =~= coords);
        }
        let discovered_new_values = coords_to_update.len() > 0;
        let mut i: usize = 0;
        while i < coords_to_update.len()
            invariant
                i <= coords_to_update.len(),
                coords == coords_to_update@,
                coords == before.grid.newly_determined(),
                before == old(self)@,
                before.wf(),
                coords.len() > 0 ==> before.covered() && self@.consistent() && self@.covered(),
                self.wf(),
                self@.size() == before.size(),
                self@.refines(before),
                forall|j: int| 0 <= j < coords.len() ==> (#[trigger] coords[j]).within(before.size()),
                self@.propagate_batch(coords.skip(i as int)) == before.propagate_batch(coords),
            decreases coords_to_update.len() - i,
        {
            let coord = coords_to_update[i];
            proof {
                assert(coords.skip(i as int)[0] == coord);
                assert(coords.skip(i as int).skip(1) =~= coords.skip(i + 1));
                assert(coord.within(before.size()));
            }
            match self.get_cell(&coord).get_value() {
                Some(value) => {
                    proof {
                        lemma_resolved_candidate(self@, coord);
                        lemma_candidate_can_place(self@, coord, value as int);
                        lemma_place_consistent(self@, coord, value as int, Placement::Assign);
                        lemma_place_wf(self@, coord, value as int, Placement::Assign);
                        lemma_place_refines(self@, coord, value as int, Placement::Assign);
                        lemma_refines_transitive(
                            self@.place(coord, value as int, Placement::Assign),
                            self@,
                            before,
                        );
                    }
                    self.set_value(&coord, value);
                },
                None => {
                    proof {
                        assert(self@.propagate_batch(coords.skip(i as int)) == Propagation {
                            board: self@,
                            feasible: false,
                        });
                        assert(before.propagate() == before.propagate_batch(coords));
                    }
                    return Err("Value conflict detected, no solution for this puzzle".to_owned());
                },
            }
            i += 1;
        }
        if discovered_new_values {
            proof {
                lemma_batch_progress(before);
            }
            self.discover_new_values()
        } else {
            Ok(())
        }
    }
}

} // verus!
