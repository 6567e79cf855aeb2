use vstd::prelude::*;

use crate::cell::{lemma_resolved_iff_singleton, Cell, CellView};
use crate::cell_container::{CellContainer, GridView};
use crate::coord::Coord;
use crate::group::Group;

verus! {

/// How a value is put into a cell: `Assign` confirms it, `Prefill` narrows the
/// cell down to it and leaves the confirmation to the propagation.
#[derive(Clone, Copy, PartialEq, Eq, Structural, Debug)]
pub enum Placement {
    Assign,
    Prefill,
}

/// A puzzle state as a mathematical value: the grid of cell states and the
/// groups of positions that must each hold every value once.
pub struct BoardView {
    pub grid: GridView,
    pub groups: Seq<Seq<Coord>>,
}

impl BoardView {
    /// The number of rows, of columns, and of values.
    pub open spec fn size(self) -> nat {
        self.grid.size
    }

    /// The state of the cell at `coord`.
    pub open spec fn cell(self, coord: Coord) -> CellView {
        self.grid.cells[coord]
    }

    /// The grid is well formed and every position of every group lies inside
    /// it.
    pub open spec fn wf(self) -> bool {
        &&& self.grid.wf()
        &&& forall|g: int, j: int|
            0 <= g < self.groups.len() && 0 <= j < self.groups[g].len() ==> (
            #[trigger] self.groups[g][j]).within(self.size())
    }

    /// Whether one of the first `upto` groups holds both `a` and `b`.
    pub open spec fn share_group_before(self, a: Coord, b: Coord, upto: int) -> bool {
        exists|g: int|
            0 <= g < upto && g < self.groups.len() && #[trigger] self.groups[g].contains(a)
                && self.groups[g].contains(b)
    }

    /// Whether some group holds both `a` and `b`.
    pub open spec fn share_group(self, a: Coord, b: Coord) -> bool {
        self.share_group_before(a, b, self.groups.len() as int)
    }

    /// Whether some group holds `coord`.
    pub open spec fn covers(self, coord: Coord) -> bool {
        self.share_group(coord, coord)
    }

    /// Every position of the grid belongs to at least one group.
    pub open spec fn covered(self) -> bool {
        forall|coord: Coord| coord.within(self.size()) ==> #[trigger] self.covers(coord)
    }

    /// The state that placing `value` at `target` gives to a cell that shares
    /// a group with `target`: the target takes the value, any other cell
    /// loses it.
    pub open spec fn touched_cell(
        self,
        target: Coord,
        value: int,
        mode: Placement,
        at: Coord,
    ) -> CellView {
        if at != target {
            self.cell(at).without(value)
        } else if mode == Placement::Assign {
            self.cell(at).assigned(value)
        } else {
            self.cell(at).collapsed(value)
        }
    }

    /// The state of the cell at `at` once `value` has been placed at `target`
    /// through the first `upto` groups.
    pub open spec fn placed_cell_before(
        self,
        target: Coord,
        value: int,
        mode: Placement,
        at: Coord,
        upto: int,
    ) -> CellView {
        if self.share_group_before(target, at, upto) {
            self.touched_cell(target, value, mode, at)
        } else {
            self.cell(at)
        }
    }

    /// The board once `value` has been placed at `target` through the first
    /// `upto` groups.
    pub open spec fn place_before(
        self,
        target: Coord,
        value: int,
        mode: Placement,
        upto: int,
    ) -> BoardView {
        BoardView {
            grid: GridView {
                size: self.grid.size,
                cells: Map::new(
                    |at: Coord| self.grid.cells.dom().contains(at),
                    |at: Coord| self.placed_cell_before(target, value, mode, at, upto),
                ),
            },
            groups: self.groups,
        }
    }

    /// The board once `value` has been placed at `target` through the first
    /// `group` groups and the first `upto` positions of the group after them.
    pub open spec fn place_within(
        self,
        target: Coord,
        value: int,
        mode: Placement,
        group: int,
        upto: int,
    ) -> BoardView {
        BoardView {
            grid: GridView {
                size: self.grid.size,
                cells: Map::new(
                    |at: Coord| self.grid.cells.dom().contains(at),
                    |at: Coord|
                        if self.share_group_before(target, at, group) || self.groups[group].take(
                            upto,
                        ).contains(at) {
                            self.touched_cell(target, value, mode, at)
                        } else {
                            self.cell(at)
                        },
                ),
            },
            groups: self.groups,
        }
    }

    /// The board once `value` has been placed at `target`: in every group
    /// that holds `target`, the target takes the value and every other cell
    /// loses it as a candidate. Nothing changes where no group holds `target`.
    pub open spec fn place(self, target: Coord, value: int, mode: Placement) -> BoardView {
        self.place_before(target, value, mode, self.groups.len() as int)
    }

    /// Whether `value` may be placed at `target`: no confirmed cell that
    /// shares a group with `target` holds `value` itself.
    pub open spec fn can_place(self, target: Coord, value: int) -> bool {
        forall|at: Coord|
            at != target && #[trigger] self.share_group(target, at) ==> self.cell(at).may_strike(
                value,
            )
    }

    /// Every confirmed cell holds exactly one candidate, and no cell that
    /// shares a group with it holds that value as a candidate.
    pub open spec fn consistent(self) -> bool {
        &&& forall|coord: Coord|
            coord.within(self.size()) ==> (#[trigger] self.cell(coord)).settled()
        &&& forall|a: Coord, b: Coord, value: int|
            a != b && #[trigger] self.share_group(a, b) && self.cell(a).fixed
                && #[trigger] self.cell(a).candidates.contains(value) ==> !self.cell(
                b,
            ).candidates.contains(value)
    }

    /// Every cell has been confirmed.
    pub open spec fn solved(self) -> bool {
        forall|coord: Coord| coord.within(self.size()) ==> (#[trigger] self.cell(coord)).fixed
    }

    /// Each value occurs as the resolved value of some cell of `group`.
    pub open spec fn valid_group(self, group: Seq<Coord>) -> bool {
        forall|value: int|
            0 <= value < self.size() ==> #[trigger] self.group_holds(group, value, group.len() as int)
    }

    /// Whether one of the first `upto` cells of `group` is resolved to `value`.
    pub open spec fn group_holds(self, group: Seq<Coord>, value: int, upto: int) -> bool {
        exists|j: int|
            0 <= j < upto && j < group.len() && (#[trigger] self.cell(group[j])).resolved()
                == Some(value)
    }

    /// Every group holds every value.
    pub open spec fn valid_solution(self) -> bool {
        forall|g: int| 0 <= g < self.groups.len() ==> self.valid_group(#[trigger] self.groups[g])
    }
}

/// Placing through no group at all leaves the board as it is.
pub proof fn lemma_place_before_none(board: BoardView, target: Coord, value: int, mode: Placement)
    ensures
        board.place_before(target, value, mode, 0) == board,
{
    assert(board.place_before(target, value, mode, 0).grid.cells =~= board.grid.cells);
}

/// A group that does not hold the target changes nothing; one that does is
/// entered with none of its positions visited.
pub proof fn lemma_place_enter_group(
    board: BoardView,
    target: Coord,
    value: int,
    mode: Placement,
    group: int,
)
    requires
        0 <= group < board.groups.len(),
    ensures
        !board.groups[group].contains(target) ==> board.place_before(target, value, mode, group + 1)
            == board.place_before(target, value, mode, group),
        board.place_within(target, value, mode, group, 0) == board.place_before(
            target,
            value,
            mode,
            group,
        ),
{
    let before = board.place_before(target, value, mode, group);
    if !board.groups[group].contains(target) {
        let after = board.place_before(target, value, mode, group + 1);
        assert forall|at: Coord| board.share_group_before(target, at, group + 1)
            == board.share_group_before(target, at, group) by {
            if board.share_group_before(target, at, group + 1) {
                let g = choose|g: int|
                    0 <= g < group + 1 && g < board.groups.len() && #[trigger] board.groups[g].contains(
                        target,
                    ) && board.groups[g].contains(at);
                assert(g < group);
            }
        }
        assert(after.grid.cells =~= before.grid.cells);
    }
    let within = board.place_within(target, value, mode, group, 0);
    assert forall|at: Coord| !board.groups[group].take(0).contains(at) by {}
    assert(within.grid.cells =~= before.grid.cells);
}

/// Once every position of a group that holds the target has been visited,
/// the group is done.
pub proof fn lemma_place_leave_group(
    board: BoardView,
    target: Coord,
    value: int,
    mode: Placement,
    group: int,
)
    requires
        0 <= group < board.groups.len(),
        board.groups[group].contains(target),
    ensures
        board.place_within(target, value, mode, group, board.groups[group].len() as int)
            == board.place_before(target, value, mode, group + 1),
{
    let members = board.groups[group];
    let within = board.place_within(target, value, mode, group, members.len() as int);
    let after = board.place_before(target, value, mode, group + 1);
    assert(members.take(members.len() as int) =~= members);
    assert forall|at: Coord|
        (board.share_group_before(target, at, group) || members.contains(at))
            == board.share_group_before(target, at, group + 1) by {
        if board.share_group_before(target, at, group + 1) {
            let g = choose|g: int|
                0 <= g < group + 1 && g < board.groups.len() && #[trigger] board.groups[g].contains(
                    target,
                ) && board.groups[g].contains(at);
            if g < group {
                assert(board.share_group_before(target, at, group));
            }
        }
        if members.contains(at) {
            assert(board.groups[group].contains(target) && board.groups[group].contains(at));
        }
        if board.share_group_before(target, at, group) {
            let g = choose|g: int|
                0 <= g < group && g < board.groups.len() && #[trigger] board.groups[g].contains(
                    target,
                ) && board.groups[g].contains(at);
            assert(board.groups[g].contains(target) && board.groups[g].contains(at));
        }
    }
    assert(within.grid.cells =~= after.grid.cells);
}

/// Visiting one more position of a group that holds the target: the cell
/// there may be changed as the placement asks, and changing it gives the
/// board with that position visited too.
pub proof fn lemma_place_visit(
    board: BoardView,
    target: Coord,
    value: int,
    mode: Placement,
    group: int,
    upto: int,
)
    requires
        board.wf(),
        board.can_place(target, value),
        0 <= group < board.groups.len(),
        board.groups[group].contains(target),
        0 <= upto < board.groups[group].len(),
    ensures
        ({
            let at = board.groups[group][upto];
            let current = board.place_within(target, value, mode, group, upto);
            let next = board.place_within(target, value, mode, group, upto + 1);
            &&& at.within(board.size())
            &&& current.cell(at).size == board.size()
            &&& at != target ==> current.cell(at).may_strike(value)
            &&& at != target ==> next.grid.cells == current.grid.cells.insert(
                at,
                current.cell(at).without(value),
            )
            &&& at == target && mode == Placement::Assign ==> next.grid.cells
                == current.grid.cells.insert(at, current.cell(at).assigned(value))
            &&& at == target && mode == Placement::Prefill ==> next.grid.cells
                == current.grid.cells.insert(at, current.cell(at).collapsed(value))
        }),
{
    let members = board.groups[group];
    let at = members[upto];
    let current = board.place_within(target, value, mode, group, upto);
    let next = board.place_within(target, value, mode, group, upto + 1);
    assert(members.take(upto + 1) =~= members.take(upto).push(at));
    assert(members.take(upto + 1).contains(at)) by {
        assert(members.take(upto + 1)[upto] == at);
    }
    let shorter = members.take(upto);
    let longer = members.take(upto + 1);
    assert forall|other: Coord| other != at implies longer.contains(other) == shorter.contains(
        other,
    ) by {
        if longer.contains(other) {
            let k = choose|k: int| 0 <= k < longer.len() && (#[trigger] longer[k]) == other;
            assert(shorter[k] == other);
        }
        if shorter.contains(other) {
            let k = choose|k: int| 0 <= k < shorter.len() && (#[trigger] shorter[k]) == other;
            assert(longer[k] == other);
        }
    }
    assert(board.cell(at).wf());
    let touched = board.touched_cell(target, value, mode, at);
    assert(current.cell(at) == touched || current.cell(at) == board.cell(at));
    if at != target {
        assert(members.contains(at));
        assert(board.share_group(target, at));
        if current.cell(at) == touched {
            lemma_resolved_iff_singleton(touched, value);
            assert(!touched.candidates.contains(value));
        }
        assert(touched.without(value).candidates =~= touched.candidates);
        assert(next.grid.cells =~= current.grid.cells.insert(at, current.cell(at).without(value)));
    } else if mode == Placement::Assign {
        assert(next.grid.cells =~= current.grid.cells.insert(at, current.cell(at).assigned(value)));
    } else {
        assert(next.grid.cells =~= current.grid.cells.insert(
            at,
            current.cell(at).collapsed(value),
        ));
    }
}

/// A Sudoku board: the grid of cells and the groups that constrain them.
pub struct Board {
    pub cells: CellContainer,
    pub groups: Vec<Group>,
}

impl View for Board {
    type V = BoardView;

    open spec fn view(&self) -> BoardView {
        BoardView { grid: self.cells@, groups: self.groups@.map_values(|group: Group| group@) }
    }
}

impl Clone for Board {
    fn clone(&self) -> (copy: Self)
        ensures
            copy@ == self@,
            self.wf() ==> copy.wf(),
    {
        let cells = self.cells.clone();
        let mut groups: Vec<Group> = Vec::new();
        let mut i: usize = 0;
        while i < self.groups.len()
            invariant
                i <= self.groups.len(),
                groups@.len() == i,
                forall|j: int| 0 <= j < i ==> (#[trigger] groups@[j])@ == self.groups@[j]@,
            decreases self.groups.len() - i,
        {
            groups.push(self.groups[i].clone());
            i += 1;
        }
        let copy = Board { cells, groups };
        assert(copy@.groups =~= self@.groups);
        copy
    }
}

impl Board {
    /// The storage of the cells is well formed and so is the view.
    pub open spec fn wf(&self) -> bool {
        &&& self.cells.wf()
        &&& self@.wf()
    }

    pub fn new(cells: CellContainer, groups: Vec<Group>) -> (board: Self)
        ensures
            board.cells == cells,
            board.groups == groups,
    {
        Board { cells, groups }
    }

    /// The cell at `coord`.
    pub fn get_cell(&self, coord: &Coord) -> (cell: &Cell)
        requires
            self.wf(),
            coord.within(self@.size()),
        ensures
            cell@ == self@.cell(*coord),
    {
        self.cells.get_cell(coord)
    }

    pub(crate) fn group_size(&self) -> (size: usize)
        ensures
            size == self@.size(),
    {
        self.cells.group_size()
    }

    /// Confirms `value` for the cell at `coord` and rules it out for every
    /// other cell of the groups that hold `coord`.
    pub fn set_value(&mut self, coord: &Coord, value: usize)
        requires
            old(self).wf(),
            value < old(self)@.size(),
            old(self)@.can_place(*coord, value as int),
        ensures
            final(self).wf(),
            final(self)@ == old(self)@.place(*coord, value as int, Placement::Assign),
    {
        self.set_value_by(coord, value, Placement::Assign);
    }

    /// Narrows the cell at `coord` down to `value`, without confirming it,
    /// and rules the value out for every other cell of the groups that hold
    /// `coord`.
    pub fn prefill_value(&mut self, coord: &Coord, value: usize)
        requires
            old(self).wf(),
            value < old(self)@.size(),
            old(self)@.can_place(*coord, value as int),
        ensures
            final(self).wf(),
            final(self)@ == old(self)@.place(*coord, value as int, Placement::Prefill),
    {
        self.set_value_by(coord, value, Placement::Prefill);
    }

    /// Whether every cell has been confirmed.
    pub fn is_solved(&self) -> (solved: bool)
        requires
            self.wf(),
        ensures
            solved == self@.solved(),
    {
        let group_size = self.group_size();
        let mut is_solved = true;
        let mut y: usize = 0;
        while y < group_size
            invariant
                self.wf(),
                group_size == self@.size(),
                y <= group_size,
                is_solved <==> forall|coord: Coord|
                    coord.within(self@.size()) && coord.y < y ==> (#[trigger] self@.cell(
                        coord,
                    )).fixed,
            decreases group_size - y,
        {
            let mut x: usize = 0;
            while x < group_size
                invariant
                    self.wf(),
                    group_size == self@.size(),
                    y < group_size,
                    x <= group_size,
                    is_solved <==> forall|coord: Coord|
                        coord.within(self@.size()) && (coord.y < y || (coord.y == y && coord.x
                            < x)) ==> (#[trigger] self@.cell(coord)).fixed,
                decreases group_size - x,
            {
                let coord = Coord::new(x, y);
                let fixed = self.get_cell(&coord).is_set;
                proof {
                    assert(fixed == self@.cell(coord).fixed);
                }
                is_solved = is_solved && fixed;
                x += 1;
            }
            y += 1;
        }
        is_solved
    }

    fn is_valid_group(&self, group: &Group) -> (valid: bool)
        requires
            self.wf(),
            forall|i: int| 0 <= i < group@.len() ==> (#[trigger] group@[i]).within(self@.size()),
        ensures
            valid == self@.valid_group(group@),
    {
        let mut validation_cell = Cell::new(self.group_size());
        let ghost size = self@.size() as int;
        let member_count = group.coordinates.len();
        let mut i: usize = 0;
        proof {
            assert(validation_cell@.candidates =~= Set::new(
                |value: int| 0 <= value < size && !self@.group_holds(group@, value, 0),
            ));
        }
        while i < member_count
            invariant
                self.wf(),
                size == self@.size(),
                member_count == group@.len(),
                i <= member_count,
                forall|j: int| 0 <= j < group@.len() ==> (#[trigger] group@[j]).within(self@.size()),
                validation_cell@.size == size,
                !validation_cell@.fixed,
                validation_cell@.candidates == Set::new(
                    |value: int| 0 <= value < size && !self@.group_holds(group@, value, i as int),
                ),
            decreases member_count - i,
        {
            let coord = group.coordinates[i];
            let ghost resolved = self@.cell(coord).resolved();
            proof {
                assert(coord.within(self@.size()));
                assert forall|value: int|
                    self@.group_holds(group@, value, i + 1) == (self@.group_holds(
                        group@,
                        value,
                        i as int,
                    ) || resolved == Some(value)) by {
                    if self@.group_holds(group@, value, i + 1) {
                        let j = choose|j: int|
                            0 <= j < i + 1 && j < group@.len() && (#[trigger] self@.cell(
                                group@[j],
                            )).resolved() == Some(value);
                        if j < i {
                            assert(self@.group_holds(group@, value, i as int));
                        }
                    }
                    if self@.group_holds(group@, value, i as int) {
                        let j = choose|j: int|
                            0 <= j < i && j < group@.len() && (#[trigger] self@.cell(
                                group@[j],
                            )).resolved() == Some(value);
                        assert(self@.cell(group@[j]).resolved() == Some(value));
                    }
                    if resolved == Some(value) {
                        assert(self@.cell(group@[i as int]).resolved() == Some(value));
                    }
                }
            }
            if let Some(value) = self.get_cell(&coord).get_value() {
                proof {
                    assert(self@.cell(coord).wf());
                    lemma_resolved_iff_singleton(self@.cell(coord), value as int);
                    assert(self@.cell(coord).candidates.contains(value as int));
                }
                validation_cell.strike_through(value);
            }
            i += 1;
            proof {
                assert(validation_cell@.candidates =~= Set::new(
                    |value: int| 0 <= value < size && !self@.group_holds(group@, value, i as int),
                ));
            }
        }
        let remaining = validation_cell.possibilities();
        proof {
            validation_cell.lemma_view_wf();
            if remaining == 0 {
                validation_cell@.candidates.lemma_len0_is_empty();
                assert forall|value: int| 0 <= value < size implies #[trigger] self@.group_holds(
                    group@,
                    value,
                    group@.len() as int,
                ) by {
                    assert(!validation_cell@.candidates.contains(value));
                }
            } else {
                if self@.valid_group(group@) {
                    assert(validation_cell@.candidates =~= Set::<int>::empty()) by {
                        assert forall|value: int| !validation_cell@.candidates.contains(value) by {
                            if 0 <= value < size {
                                assert(self@.group_holds(group@, value, group@.len() as int));
                            }
                        }
                    }
                }
            }
        }
        remaining == 0
    }

    /// Whether every group holds every value.
    pub fn is_valid_solution(&self) -> (valid: bool)
        requires
            self.wf(),
        ensures
            valid == self@.valid_solution(),
    {
        let mut g: usize = 0;
        while g < self.groups.len()
            invariant
                self.wf(),
                g <= self.groups.len(),
                forall|k: int| 0 <= k < g ==> self@.valid_group(#[trigger] self@.groups[k]),
            decreases self.groups.len() - g,
        {
            proof {
                assert(self@.groups[g as int] == self.groups@[g as int]@);
                assert forall|i: int| 0 <= i < self.groups@[g as int]@.len() implies (
                #[trigger] self.groups@[g as int]@[i]).within(self@.size()) by {
                    assert(self@.groups[g as int][i].within(self@.size()));
                }
            }
            if !self.is_valid_group(&self.groups[g]) {
                return false;
            }
            g += 1;
        }
        true
    }

    fn set_value_by(&mut self, coord: &Coord, value: usize, mode: Placement)
        requires
            old(self).wf(),
            value < old(self)@.size(),
            old(self)@.can_place(*coord, value as int),
        ensures
            final(self).wf(),
            final(self)@ == old(self)@.place(*coord, value as int, mode),
    {
        let ghost before = self@;
        let group_count = self.groups.len();
        proof {
            lemma_place_before_none(before, *coord, value as int, mode);
        }
        let mut g: usize = 0;
        while g < group_count
            invariant
                g <= group_count,
                group_count == self.groups.len(),
                self.wf(),
                before.wf(),
                before.groups == self@.groups,
                value < before.size(),
                before.can_place(*coord, value as int),
                self@ == before.place_before(*coord, value as int, mode, g as int),
            decreases group_count - g,
        {
            proof {
                lemma_place_enter_group(before, *coord, value as int, mode, g as int);
            }
            if self.groups[g].contains_coord(coord) {
                let member_count = self.groups[g].coordinates.len();
                let mut i: usize = 0;
                while i < member_count
                    invariant
                        g < group_count,
                        group_count == self.groups.len(),
                        i <= member_count,
                        member_count == before.groups[g as int].len(),
                        self.wf(),
                        before.wf(),
                        before.groups == self@.groups,
                        before.groups[g as int].contains(*coord),
                        value < before.size(),
                        before.can_place(*coord, value as int),
                        self@ == before.place_within(
                            *coord,
                            value as int,
                            mode,
                            g as int,
                            i as int,
                        ),
                    decreases member_count - i,
                {
                    let cur = self.groups[g].coordinates[i];
                    proof {
                        lemma_place_visit(before, *coord, value as int, mode, g as int, i as int);
                    }
                    let cell = self.cells.get_mut_cell(&cur);
                    if cur == *coord {
                        match mode {
                            Placement::Assign => cell.set_value(value),
                            Placement::Prefill => cell.prefill_value(value),
                        }
                    } else {
                        cell.strike_through(value);
                    }
                    i += 1;
                }
                proof {
                    lemma_place_leave_group(before, *coord, value as int, mode, g as int);
                }
            }
            g += 1;
        }
    }
}

} // verus!
