use vstd::prelude::*;

use crate::cell::{Cell, CellView};
use crate::coord::Coord;
use crate::repeater::Repeater;

verus! {

/// A square grid of cells as a mathematical value: one cell state for each
/// position inside a grid of `size` rows and columns.
pub struct GridView {
    pub size: nat,
    pub cells: Map<Coord, CellView>,
}

impl GridView {
    /// The grid holds a cell of `size` values at each position inside it, and
    /// nowhere else.
    pub open spec fn wf(self) -> bool {
        &&& self.size <= usize::MAX
        &&& self.cells.dom().finite()
        &&& forall|c: Coord| self.cells.dom().contains(c) <==> c.within(self.size)
        &&& forall|c: Coord|
            #![trigger self.cells[c]]
            c.within(self.size) ==> self.cells[c].size == self.size && self.cells[c].wf()
    }

    /// The grid of `size` rows and columns in which every cell is open.
    pub open spec fn blank(size: nat) -> GridView {
        GridView {
            size,
            cells: Map::new(|c: Coord| c.within(size), |c: Coord| CellView::open(size)),
        }
    }

    /// Whether the cell at `coord` has been narrowed down to one value that
    /// has not been confirmed yet.
    pub open spec fn pending(self, coord: Coord) -> bool {
        !self.cells[coord].fixed && self.cells[coord].resolved() is Some
    }

    /// `pending` as a predicate on positions.
    pub open spec fn is_pending(self) -> spec_fn(Coord) -> bool {
        |coord: Coord| self.pending(coord)
    }

    /// The positions of the pending cells, in the order in which reading the
    /// grid row by row meets them.
    pub open spec fn newly_determined(self) -> Seq<Coord> {
        row_major(self.size).filter(self.is_pending())
    }

}

/// The place of `coord` in the row-by-row storage of a grid of `size` columns.
pub open spec fn storage_index(coord: Coord, size: nat) -> int {
    coord.y * size + coord.x
}

/// Each position inside the grid has a storage index of its own, below
/// `size * size`.
pub proof fn lemma_storage_index(a: Coord, b: Coord, size: nat)
    requires
        a.within(size),
        b.within(size),
    ensures
        0 <= storage_index(a, size) < size * size,
        a != b ==> storage_index(a, size) != storage_index(b, size),
{
    assert(a.y * size + a.x < size * size) by (nonlinear_arith)
        requires
            a.y < size,
            a.x < size,
    ;
    assert(a.y * size >= 0) by (nonlinear_arith);
    if a != b {
        assert(a.y * size + a.x != b.y * size + b.x) by (nonlinear_arith)
            requires
                a.x < size,
                b.x < size,
                0 <= a.x,
                0 <= b.x,
                a.y != b.y || a.x != b.x,
        ;
    }
}

/// The positions inside a grid of `size` rows and columns, row by row.
pub open spec fn row_major(size: nat) -> Seq<Coord> {
    Seq::new(
        size * size,
        |i: int| Coord { x: (i % size as int) as usize, y: (i / size as int) as usize },
    )
}

/// Reading the grid row by row meets each position inside it exactly once, at
/// its storage index.
pub proof fn lemma_row_major(size: nat)
    requires
        size <= usize::MAX,
    ensures
        row_major(size).len() == size * size,
        forall|i: int|
            0 <= i < size * size ==> (#[trigger] row_major(size)[i]).within(size) && storage_index(
                row_major(size)[i],
                size,
            ) == i,
        forall|c: Coord|
            c.within(size) ==> 0 <= #[trigger] storage_index(c, size) < size * size && row_major(
                size,
            )[storage_index(c, size)] == c,
        forall|c: Coord| c.within(size) <==> row_major(size).contains(c),
{
    let n = size as int;
    assert forall|i: int| 0 <= i < size * size implies (#[trigger] row_major(size)[i]).within(
        size,
    ) && storage_index(row_major(size)[i], size) == i by {
        vstd::arithmetic::div_mod::lemma_fundamental_div_mod(i, n);
        vstd::arithmetic::div_mod::lemma_mod_bound(i, n);
        vstd::arithmetic::div_mod::lemma_div_pos_is_pos(i, n);
        assert(i / n < n) by (nonlinear_arith)
            requires
                0 <= i < n * n,
                i == n * (i / n) + (i % n),
                0 <= i % n,
                0 < n,
        ;
        assert(n * (i / n) == (i / n) * n) by (nonlinear_arith);
    }
    assert forall|c: Coord| c.within(size) implies 0 <= #[trigger] storage_index(c, size) < size
        * size && row_major(size)[storage_index(c, size)] == c by {
        lemma_storage_index(c, c, size);
        vstd::arithmetic::div_mod::lemma_fundamental_div_mod_converse(
            storage_index(c, size),
            n,
            c.y as int,
            c.x as int,
        );
    }
    assert forall|c: Coord| c.within(size) <==> row_major(size).contains(c) by {
        if c.within(size) {
            assert(row_major(size)[storage_index(c, size)] == c);
        }
    }
}

/// A flat, indexable collection of the cells of a square grid.
pub struct CellContainer {
    group_size: usize,
    cells: Vec<Cell>,
}

impl View for CellContainer {
    type V = GridView;

    closed spec fn view(&self) -> GridView {
        GridView {
            size: self.group_size as nat,
            cells: Map::new(
                |c: Coord| c.within(self.group_size as nat),
                |c: Coord| self.cell_views()[storage_index(c, self.group_size as nat)],
            ),
        }
    }
}

impl Clone for CellContainer {
    fn clone(&self) -> (copy: Self)
        ensures
            copy@ == self@,
            self.wf() ==> copy.wf(),
    {
        let mut cells: Vec<Cell> = Vec::new();
        let mut i: usize = 0;
        while i < self.cells.len()
            invariant
                i <= self.cells.len(),
                cells@.len() == i,
                forall|j: int| 0 <= j < i ==> (#[trigger] cells@[j])@ == self.cells@[j]@,
            decreases self.cells.len() - i,
        {
            cells.push(self.cells[i].clone());
            i += 1;
        }
        let copy = CellContainer { group_size: self.group_size, cells };
        assert(copy.cell_views() =~= self.cell_views());
        copy
    }
}

impl CellContainer {
    /// The states of the stored cells, in storage order.
    pub closed spec fn cell_views(&self) -> Seq<CellView> {
        self.cells@.map_values(|cell: Cell| cell@)
    }

    /// The storage holds one cell of `group_size` values for each position.
    pub closed spec fn wf(&self) -> bool {
        &&& self.cells@.len() == self.group_size * self.group_size
        &&& forall|i: int|
            0 <= i < self.cells@.len() ==> (#[trigger] self.cells@[i])@.size == self.group_size
    }

    /// The view of a well-formed container is a well-formed grid.
    pub proof fn lemma_view_wf(&self)
        requires
            self.wf(),
        ensures
            self@.wf(),
    {
        let size = self.group_size as nat;
        lemma_row_major(size);
        vstd::seq_lib::seq_to_set_is_finite(row_major(size));
        assert(self@.cells.dom().subset_of(row_major(size).to_set()));
        vstd::set_lib::lemma_len_subset(self@.cells.dom(), row_major(size).to_set());
        assert forall|c: Coord| #![trigger self@.cells[c]] c.within(size) implies self@.cells[c].size
            == size && self@.cells[c].wf() by {
            self.cells@[storage_index(c, size)].lemma_view_wf();
        }
    }

    /// Replacing the stored cell of a position replaces that position's cell
    /// in the view, and no other.
    proof fn lemma_replace_cell(&self, after: CellContainer, coord: Coord, cell: Cell)
        requires
            self.wf(),
            coord.within(self@.size),
            after.group_size == self.group_size,
            after.cells@ == self.cells@.update(storage_index(coord, self@.size), cell),
        ensures
            after@.size == self@.size,
            after@.cells == self@.cells.insert(coord, cell@),
            cell@.size == self@.size ==> after.wf(),
    {
        let size = self.group_size as nat;
        lemma_storage_index(coord, coord, size);
        assert forall|c: Coord| c.within(size) implies after@.cells[c] == self@.cells.insert(
            coord,
            cell@,
        )[c] by {
            lemma_storage_index(c, coord, size);
        }
        assert(after@.cells =~= self@.cells.insert(coord, cell@));
    }

    /// A grid of `group_size` rows and columns in which every cell is open.
    pub fn new(group_size: usize) -> (container: Self)
        requires
            group_size * group_size <= usize::MAX,
        ensures
            container.wf(),
            container@ == GridView::blank(group_size as nat),
    {
        let open_cell = move || -> (cell: Cell)
            ensures
                cell@ == CellView::open(group_size as nat),
            {
                Cell::new(group_size)
            };
        let mut repeater = Repeater::new(open_cell);
        let count: usize = group_size * group_size;
        let mut cells: Vec<Cell> = Vec::new();
        let mut i: usize = 0;
        while i < count
            invariant
                i <= count,
                cells@.len() == i,
                call_requires(repeater.source(), ()),
                forall|cell: Cell|
                    call_ensures(repeater.source(), (), cell) ==> cell@ == CellView::open(
                        group_size as nat,
                    ),
                forall|j: int|
                    0 <= j < i ==> (#[trigger] cells@[j])@ == CellView::open(group_size as nat),
            decreases count - i,
        {
            match repeater.next() {
                Some(cell) => cells.push(cell),
                None => {},
            }
            i += 1;
        }
        let container = CellContainer { group_size, cells };
        proof {
            lemma_row_major(group_size as nat);
            assert(container@.cells =~= GridView::blank(group_size as nat).cells);
        }
        container
    }

    /// The number of rows, of columns, and of values of a cell.
    pub fn group_size(&self) -> (size: usize)
        ensures
            size == self@.size,
    {
        self.group_size
    }

    fn index_of(&self, coord: &Coord) -> (index: usize)
        requires
            self.wf(),
            coord.within(self@.size),
        ensures
            index == storage_index(*coord, self@.size),
            index < self.cells@.len(),
    {
        let size = self.group_size();
        proof {
            lemma_storage_index(*coord, *coord, size as nat);
            assert(self.cells.len() == size * size);
            assert(0 <= coord.y * size <= coord.y * size + coord.x) by (nonlinear_arith)
                requires
                    0 <= coord.y,
                    0 <= size,
                    0 <= coord.x,
            ;
        }
        coord.y * size + coord.x
    }

    /// The cell at `coord`.
    pub fn get_cell(&self, coord: &Coord) -> (cell: &Cell)
        requires
            self.wf(),
            coord.within(self@.size),
        ensures
            cell@ == self@.cells[*coord],
    {
        &self.cells[self.index_of(coord)]
    }

    /// The positions of the cells that are down to one value which has not
    /// been confirmed yet, row by row.
    pub fn get_cell_coords_to_update(&self) -> (coords: Vec<Coord>)
        requires
            self.wf(),
        ensures
            coords@ == self@.newly_determined(),
    {
        let mut cell_coords_to_update: Vec<Coord> = Vec::new();
        let group_size = self.group_size();
        let ghost size = group_size as nat;
        let ghost all = row_major(size);
        let ghost pending = self@.is_pending();
        proof {
            lemma_row_major(size);
            assert(all.take(0) =~= Seq::<Coord>::empty());
            reveal(Seq::filter);
        }
        let mut y: usize = 0;
        while y < group_size
            invariant
                self.wf(),
                group_size == self@.size,
                size == group_size,
                all == row_major(size),
                pending == self@.is_pending(),
                y <= group_size,
                cell_coords_to_update@ == all.take(y * group_size).filter(pending),
            decreases group_size - y,
        {
            let mut x: usize = 0;
            while x < group_size
                invariant
                    self.wf(),
                    group_size == self@.size,
                    size == group_size,
                    all == row_major(size),
                    pending == self@.is_pending(),
                    y < group_size,
                    x <= group_size,
                    cell_coords_to_update@ == all.take(y * group_size + x).filter(pending),
                decreases group_size - x,
            {
                let coord = Coord::new(x, y);
                let cell = self.get_cell(&coord);
                proof {
                    lemma_row_major(size);
                    let k = storage_index(coord, size);
                    assert(all.take(k + 1) =~= all.take(k).push(coord));
                    all.take(k).lemma_filter_push(coord, pending);
                }
                if !cell.is_set && cell.get_value().is_some() {
                    cell_coords_to_update.push(coord);
                }
                x += 1;
            }
            proof {
                assert(y * group_size + group_size == (y + 1) * group_size) by (nonlinear_arith);
            }
            y += 1;
        }
        proof {
            lemma_row_major(size);
            assert(all.take(group_size * group_size) =~= all);
        }
        cell_coords_to_update
    }

    /// The cell at `coord`, to be changed in place.
    pub fn get_mut_cell(&mut self, coord: &Coord) -> (cell: &mut Cell)
        requires
            old(self).wf(),
            coord.within(old(self)@.size),
        ensures
            cell@ == old(self)@.cells[*coord],
            final(self)@.size == old(self)@.size,
            final(self)@.cells == old(self)@.cells.insert(*coord, final(cell)@),
            final(cell)@.size == old(self)@.size ==> final(self).wf(),
    {
        let index = self.index_of(coord);
        proof {
            assert forall|after: CellContainer, cell: Cell|
                after.group_size == self.group_size && after.cells@ == self.cells@.update(
                    index as int,
                    cell,
                ) implies #[trigger] after@.cells == self@.cells.insert(*coord, #[trigger] cell@)
                && (cell@.size == self@.size ==> after.wf()) by {
                self.lemma_replace_cell(after, *coord, cell);
            }
        }
        &mut self.cells[index]
    }
}

} // verus!
