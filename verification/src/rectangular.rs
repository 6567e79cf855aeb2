use vstd::arithmetic::div_mod::{
    lemma_div_pos_is_pos,
    lemma_fundamental_div_mod,
    lemma_fundamental_div_mod_converse,
    lemma_mod_bound,
};
use vstd::prelude::*;

use crate::board::{Board, BoardView};
use crate::cell_container::{CellContainer, GridView};
use crate::coord::Coord;
use crate::group::Group;
use crate::search::board_views;

verus! {

/// The column `x` of a grid of `size` rows, from the first row down.
pub open spec fn column(size: nat, x: int) -> Seq<Coord> {
    Seq::new(size, |y: int| Coord { x: x as usize, y: y as usize })
}

/// The row `y` of a grid of `size` columns, from the first column on.
pub open spec fn row(size: nat, y: int) -> Seq<Coord> {
    Seq::new(size, |x: int| Coord { x: x as usize, y: y as usize })
}

/// The block of `width` columns and `height` rows that is the `across`-th
/// from the left and the `down`-th from the top, column after column.
pub open spec fn block(width: nat, height: nat, across: int, down: int) -> Seq<Coord> {
    Seq::new(
        width * height,
        |i: int|
            Coord {
                x: (across * width + i / (height as int)) as usize,
                y: (down * height + i % (height as int)) as usize,
            },
    )
}

/// The columns of a grid of `size` columns, from the left.
pub open spec fn columns(size: nat) -> Seq<Seq<Coord>> {
    Seq::new(size, |x: int| column(size, x))
}

/// The rows of a grid of `size` rows, from the top.
pub open spec fn rows(size: nat) -> Seq<Seq<Coord>> {
    Seq::new(size, |y: int| row(size, y))
}

/// The blocks of `width` columns and `height` rows that tile a grid of
/// `width * height` rows and columns: `height` blocks across, `width` blocks
/// down, the blocks of one column of blocks after those of the one before.
pub open spec fn blocks(width: nat, height: nat) -> Seq<Seq<Coord>> {
    Seq::new(
        height * width,
        |k: int| block(width, height, k / (width as int), k % (width as int)),
    )
}

/// The groups of a puzzle with blocks of `width` columns and `height` rows:
/// the columns, the rows, and the blocks unless a block is a column or a row.
pub open spec fn standard_groups(width: nat, height: nat) -> Seq<Seq<Coord>> {
    let size = width * height;
    if width != 1 && height != 1 {
        columns(size) + rows(size) + blocks(width, height)
    } else {
        columns(size) + rows(size)
    }
}

/// The puzzle with blocks of `width` columns and `height` rows in which no
/// value has been placed.
pub open spec fn standard_board(width: nat, height: nat) -> BoardView {
    BoardView { grid: GridView::blank(width * height), groups: standard_groups(width, height) }
}

/// A number below `width * height` splits in one way into a quotient below
/// `width` and a remainder below `height`.
pub proof fn lemma_split_index(width: int, height: int, i: int)
    requires
        0 <= width,
        0 <= height,
        0 <= i < width * height,
    ensures
        0 <= i / height < width,
        0 <= i % height < height,
        i == (i / height) * height + i % height,
{
    let h = height;
    assert(h > 0) by (nonlinear_arith)
        requires
            0 <= i < width * h,
            h >= 0,
            width >= 0,
    ;
    lemma_fundamental_div_mod(i, h);
    lemma_mod_bound(i, h);
    lemma_div_pos_is_pos(i, h);
    assert(i / h < width) by (nonlinear_arith)
        requires
            0 <= i < width * h,
            i == h * (i / h) + (i % h),
            0 <= i % h,
            0 < h,
    ;
    assert(h * (i / h) == (i / h) * h) by (nonlinear_arith);
}

/// A quotient and a remainder below `height` join into one number, from
/// which division gives them back.
pub proof fn lemma_join_index(width: int, height: int, quotient: int, remainder: int)
    requires
        0 <= quotient < width,
        0 <= remainder < height,
    ensures
        0 <= quotient * height + remainder < width * height,
        (quotient * height + remainder) / height == quotient,
        (quotient * height + remainder) % height == remainder,
{
    let h = height;
    assert(0 <= quotient * h + remainder < width * h) by (nonlinear_arith)
        requires
            0 <= quotient < width,
            0 <= remainder < h,
    ;
    lemma_fundamental_div_mod_converse(quotient * h + remainder, h, quotient, remainder);
}

/// A board on which no cell is confirmed is consistent, and any value may be
/// placed on it anywhere.
pub proof fn lemma_unconfirmed_board(board: BoardView)
    requires
        board.wf(),
        forall|coord: Coord| coord.within(board.size()) ==> !(#[trigger] board.cell(coord)).fixed,
    ensures
        board.consistent(),
        forall|coord: Coord, value: int| board.can_place(coord, value),
{
    assert forall|coord: Coord, value: int| board.can_place(coord, value) by {
        assert forall|at: Coord|
            at != coord && #[trigger] board.share_group(coord, at) implies board.cell(at).may_strike(
            value,
        ) by {
            crate::propagation::lemma_share_group_within(board, coord, at);
            assert(!board.cell(at).fixed);
        }
    }
    assert forall|a: Coord, b: Coord, value: int|
        a != b && #[trigger] board.share_group(a, b) && board.cell(a).fixed
            && #[trigger] board.cell(a).candidates.contains(value) implies !board.cell(
        b,
    ).candidates.contains(value) by {
        crate::propagation::lemma_share_group_within(board, a, b);
    }
}

/// The standard board is well formed, every position of it lies in a group,
/// every group of it holds as many positions as there are values, each once,
/// and no cell of it is confirmed.
pub proof fn lemma_standard_board(width: nat, height: nat)
    requires
        0 < width,
        0 < height,
        width * height <= usize::MAX,
    ensures
        standard_board(width, height).wf(),
        standard_board(width, height).covered(),
        standard_board(width, height).groups_full(),
        standard_board(width, height).consistent(),
        forall|coord: Coord|
            coord.within(width * height) ==> !(#[trigger] standard_board(width, height).cell(
                coord,
            )).fixed,
{
    let board = standard_board(width, height);
    let size = width * height;
    let groups = board.groups;
    assert(size > 0) by (nonlinear_arith)
        requires
            size == width * height,
            0 < width,
            0 < height,
    ;
    assert(height * width == size) by (nonlinear_arith)
        requires
            size == width * height,
    ;
    assert forall|g: int, j: int| 0 <= g < groups.len() && 0 <= j < groups[g].len() implies (
    #[trigger] groups[g][j]).within(size) by {
        if g >= 2 * size {
            let k = g - 2 * size;
            lemma_split_index(height as int, width as int, k);
            lemma_split_index(width as int, height as int, j);
            lemma_join_index(height as int, width as int, k / (width as int), j / (height as int));
            lemma_join_index(width as int, height as int, k % (width as int), j % (height as int));
        }
    }
    assert forall|g: int| 0 <= g < groups.len() implies (#[trigger] groups[g]).len() == size
        && groups[g].no_duplicates() by {
        if g >= 2 * size {
            let k = g - 2 * size;
            lemma_split_index(height as int, width as int, k);
            assert forall|i: int, j: int|
                0 <= i < groups[g].len() && 0 <= j < groups[g].len() && i != j implies groups[g][i]
                != groups[g][j] by {
                lemma_split_index(width as int, height as int, i);
                lemma_split_index(width as int, height as int, j);
                lemma_join_index(
                    height as int,
                    width as int,
                    k / (width as int),
                    i / (height as int),
                );
                lemma_join_index(
                    height as int,
                    width as int,
                    k / (width as int),
                    j / (height as int),
                );
                lemma_join_index(
                    width as int,
                    height as int,
                    k % (width as int),
                    i % (height as int),
                );
                lemma_join_index(
                    width as int,
                    height as int,
                    k % (width as int),
                    j % (height as int),
                );
            }
        }
    }
    vstd::seq_lib::seq_to_set_is_finite(crate::cell_container::row_major(size));
    crate::cell_container::lemma_row_major(size);
    assert(board.grid.cells.dom().subset_of(crate::cell_container::row_major(size).to_set()));
    vstd::set_lib::lemma_len_subset(
        board.grid.cells.dom(),
        crate::cell_container::row_major(size).to_set(),
    );
    vstd::set_lib::lemma_int_range(0, size as int);
    assert(board.grid.wf());
    assert forall|coord: Coord| coord.within(size) implies #[trigger] board.covers(coord) by {
        let g = coord.x as int;
        assert(groups[g] == column(size, g));
        assert(groups[g][coord.y as int] == coord);
        assert(groups[g].contains(coord) && groups[g].contains(coord));
    }
    lemma_unconfirmed_board(board);
}

/// The extra region of an NRC puzzle that is the `across`-th from the left
/// and the `down`-th from the top: three columns and three rows, column
/// after column.
pub open spec fn nrc_region(across: int, down: int) -> Seq<Coord> {
    Seq::new(
        9,
        |i: int| Coord { x: (across * 4 + 1 + i / 3) as usize, y: (down * 4 + 1 + i % 3) as usize },
    )
}

/// The four extra regions of an NRC puzzle.
pub open spec fn nrc_regions() -> Seq<Seq<Coord>> {
    Seq::new(4, |k: int| nrc_region(k / 2, k % 2))
}

/// The NRC puzzle in which no value has been placed: the standard board of
/// 3 by 3 blocks with the four extra regions as further groups.
pub open spec fn nrc_board() -> BoardView {
    BoardView { grid: GridView::blank(9), groups: standard_groups(3, 3) + nrc_regions() }
}

/// The blank NRC board is well formed, every position of it lies in a group,
/// every group of it holds nine positions, each once, and no cell of it is
/// confirmed.
pub proof fn lemma_nrc_board()
    ensures
        nrc_board().wf(),
        nrc_board().covered(),
        nrc_board().groups_full(),
        nrc_board().consistent(),
{
    let standard = standard_board(3, 3);
    let board = nrc_board();
    lemma_standard_board(3, 3);
    assert(standard.groups.len() == 27);
    assert forall|g: int, j: int| 0 <= g < board.groups.len() && 0 <= j < board.groups[g].len() implies (
    #[trigger] board.groups[g][j]).within(9) by {
        if g < 27 {
            assert(board.groups[g] == standard.groups[g]);
            assert(standard.groups[g][j].within(9));
        }
    }
    assert forall|g: int| 0 <= g < board.groups.len() implies (#[trigger] board.groups[g]).len() == 9
        && board.groups[g].no_duplicates() by {
        if g < 27 {
            assert(board.groups[g] == standard.groups[g]);
        }
    }
    assert forall|coord: Coord| coord.within(9) implies #[trigger] board.covers(coord) by {
        assert(standard.covers(coord));
        let g = choose|g: int|
            0 <= g < standard.groups.len() && #[trigger] standard.groups[g].contains(coord)
                && standard.groups[g].contains(coord);
        assert(board.groups[g] == standard.groups[g]);
        assert(board.groups[g].contains(coord) && board.groups[g].contains(coord));
    }
    assert forall|coord: Coord| coord.within(9) implies !(#[trigger] board.cell(coord)).fixed by {
        assert(!standard.cell(coord).fixed);
    }
    lemma_unconfirmed_board(board);
}

/// A Sudoku puzzle whose blocks are rectangles of `block_width` columns and
/// `block_height` rows.
pub struct RectangularBoard {
    pub block_width: usize,
    pub block_height: usize,
    pub board: Board,
}

impl RectangularBoard {
    /// Creates a puzzle with blocks of `block_width` columns and
    /// `block_height` rows, and so with `block_width * block_height` rows,
    /// columns and values. For a regular 9x9 puzzle, use 3 and 3.
    ///
    /// All columns and all rows of the board are added as groups, and the
    /// blocks too, unless a block is as wide or as high as one cell.
    pub fn new(block_width: usize, block_height: usize) -> (puzzle: RectangularBoard)
        requires
            block_width > 0,
            block_height > 0,
            (block_width * block_height) * (block_width * block_height) <= usize::MAX,
        ensures
            puzzle.block_width == block_width,
            puzzle.block_height == block_height,
            puzzle.board@ == standard_board(block_width as nat, block_height as nat),
            puzzle.board.wf(),
            puzzle.board@.consistent(),
            puzzle.board@.covered(),
            puzzle.board@.groups_full(),
    {
        let ghost width = block_width as nat;
        let ghost height = block_height as nat;
        let ghost size = width * height;
        proof {
            assert(size <= size * size) by (nonlinear_arith)
                requires
                    size >= 0,
            ;
            assert(size == height * width) by (nonlinear_arith)
                requires
                    size == width * height,
            ;
        }
        let group_size = block_width * block_height;
        let mut groups: Vec<Group> = Vec::new();
        let mut x: usize = 0;
        while x < group_size
            invariant
                x <= group_size,
                group_size == size,
                groups@.len() == x,
                forall|k: int| 0 <= k < x ==> (#[trigger] groups@[k])@ == column(size, k),
            decreases group_size - x,
        {
            let mut coords: Vec<Coord> = Vec::new();
            let mut y: usize = 0;
            while y < group_size
                invariant
                    y <= group_size,
                    x < group_size,
                    coords@.len() == y,
                    forall|j: int| 0 <= j < y ==> #[trigger] coords@[j] == (Coord {
                        x,
                        y: j as usize,
                    }),
                decreases group_size - y,
            {
                coords.push(Coord::new(x, y));
                y += 1;
            }
            assert(coords@ =~= column(size, x as int));
            groups.push(Group::new(coords));
            x += 1;
        }
        let mut y: usize = 0;
        while y < group_size
            invariant
                y <= group_size,
                group_size == size,
                groups@.len() == group_size + y,
                forall|k: int| 0 <= k < group_size ==> (#[trigger] groups@[k])@ == column(size, k),
                forall|k: int|
                    0 <= k < y ==> (#[trigger] groups@[group_size + k])@ == row(size, k),
            decreases group_size - y,
        {
            let mut coords: Vec<Coord> = Vec::new();
            let mut x: usize = 0;
            while x < group_size
                invariant
                    x <= group_size,
                    y < group_size,
                    coords@.len() == x,
                    forall|j: int| 0 <= j < x ==> #[trigger] coords@[j] == (Coord {
                        x: j as usize,
                        y,
                    }),
                decreases group_size - x,
            {
                coords.push(Coord::new(x, y));
                x += 1;
            }
            assert(coords@ =~= row(size, y as int));
            groups.push(Group::new(coords));
            y += 1;
        }
        if block_width != 1 && block_height != 1 {
            proof {
                vstd::arithmetic::div_mod::lemma_div_by_multiple(height as int, width as int);
                vstd::arithmetic::div_mod::lemma_div_by_multiple(width as int, height as int);
            }
            let across_count = group_size / block_width;
            let down_count = group_size / block_height;
            let mut xx: usize = 0;
            while xx < across_count
                invariant
                    xx <= across_count,
                    across_count == height,
                    down_count == width,
                    block_width == width,
                    block_height == height,
                    0 < width,
                    0 < height,
                    size == width * height,
                    size == height * width,
                    group_size == size,
                    groups@.len() == 2 * group_size + xx * width,
                    forall|k: int|
                        0 <= k < group_size ==> (#[trigger] groups@[k])@ == column(size, k),
                    forall|k: int|
                        0 <= k < group_size ==> (#[trigger] groups@[group_size + k])@ == row(
                            size,
                            k,
                        ),
                    forall|k: int|
                        0 <= k < xx * width ==> (#[trigger] groups@[2 * group_size + k])@
                            == blocks(width, height)[k],
                decreases across_count - xx,
            {
                let mut yy: usize = 0;
                while yy < down_count
                    invariant
                        xx < across_count,
                        yy <= down_count,
                        across_count == height,
                        down_count == width,
                        block_width == width,
                        block_height == height,
                        0 < width,
                        0 < height,
                        size == width * height,
                        size == height * width,
                        group_size == size,
                        groups@.len() == 2 * group_size + xx * width + yy,
                        forall|k: int|
                            0 <= k < group_size ==> (#[trigger] groups@[k])@ == column(size, k),
                        forall|k: int|
                            0 <= k < group_size ==> (#[trigger] groups@[group_size + k])@ == row(
                                size,
                                k,
                            ),
                        forall|k: int|
                            0 <= k < xx * width + yy ==> (#[trigger] groups@[2 * group_size + k])@
                                == blocks(width, height)[k],
                    decreases down_count - yy,
                {
                    let mut coords: Vec<Coord> = Vec::new();
                    let ghost members = block(width, height, xx as int, yy as int);
                    proof {
                        lemma_join_index(height as int, width as int, xx as int, yy as int);
                    }
                    let mut x: usize = 0;
                    while x < block_width
                        invariant
                            x <= block_width,
                            xx < height,
                            yy < width,
                            block_width == width,
                            block_height == height,
                            0 < width,
                            0 < height,
                            size == width * height,
                            size == height * width,
                            size <= usize::MAX,
                            members == block(width, height, xx as int, yy as int),
                            coords@.len() == x * height,
                            forall|j: int| 0 <= j < x * height ==> #[trigger] coords@[j] == members[j],
                        decreases block_width - x,
                    {
                        let mut y: usize = 0;
                        while y < block_height
                            invariant
                                x < block_width,
                                y <= block_height,
                                xx < height,
                                yy < width,
                                block_width == width,
                                block_height == height,
                                0 < width,
                                0 < height,
                                size == width * height,
                                size == height * width,
                                size <= usize::MAX,
                                members == block(width, height, xx as int, yy as int),
                                coords@.len() == x * height + y,
                                forall|j: int|
                                    0 <= j < x * height + y ==> #[trigger] coords@[j] == members[j],
                            decreases block_height - y,
                        {
                            proof {
                                lemma_join_index(width as int, height as int, x as int, y as int);
                                lemma_join_index(height as int, width as int, xx as int, x as int);
                                lemma_join_index(width as int, height as int, yy as int, y as int);
                            }
                            coords.push(Coord::new(xx * block_width + x, yy * block_height + y));
                            y += 1;
                        }
                        proof {
                            assert(x * height + height == (x + 1) * height) by (nonlinear_arith);
                        }
                        x += 1;
                    }
                    proof {
                        assert(coords@ =~= members);
                        assert(blocks(width, height)[xx * width + yy] == members);
                    }
                    groups.push(Group::new(coords));
                    yy += 1;
                }
                proof {
                    assert(xx * width + width == (xx + 1) * width) by (nonlinear_arith);
                }
                xx += 1;
            }
        }
        let ghost group_views = groups@.map_values(|group: Group| group@);
        proof {
            let expected = standard_groups(width, height);
            assert(group_views.len() == expected.len());
            assert forall|k: int| 0 <= k < expected.len() implies group_views[k] == expected[k] by {
                if k < size {
                    assert(groups@[k]@ == column(size, k));
                } else if k < 2 * size {
                    assert(groups@[size + (k - size)]@ == row(size, k - size));
                } else {
                    assert(groups@[2 * size + (k - 2 * size)]@ == blocks(width, height)[k - 2
                        * size]);
                }
            }
            assert(group_views =~= expected);
            lemma_standard_board(width, height);
        }
        let board = Board::new(CellContainer::new(group_size), groups);
        RectangularBoard { block_width, block_height, board }
    }

    /// Creates an NRC puzzle: a regular 9x9 puzzle with four extra regions of
    /// 3 by 3 cells, one row and one column in from each corner.
    pub fn new_nrc() -> (puzzle: Self)
        ensures
            puzzle.block_width == 3,
            puzzle.block_height == 3,
            puzzle.board@ == nrc_board(),
            puzzle.board.wf(),
            puzzle.board@.consistent(),
            puzzle.board@.covered(),
            puzzle.board@.groups_full(),
    {
        let RectangularBoard { board, .. } = RectangularBoard::new(3, 3);
        let Board { cells, groups } = board;
        let mut groups = groups;
        let ghost standard = groups@.map_values(|group: Group| group@);
        let mut xx: usize = 0;
        while xx < 2
            invariant
                xx <= 2,
                groups@.len() == 27 + xx * 2,
                standard == standard_groups(3, 3),
                forall|k: int| 0 <= k < 27 ==> (#[trigger] groups@[k])@ == standard[k],
                forall|k: int|
                    0 <= k < xx * 2 ==> (#[trigger] groups@[27 + k])@ == nrc_regions()[k],
            decreases 2 - xx,
        {
            let mut yy: usize = 0;
            while yy < 2
                invariant
                    xx < 2,
                    yy <= 2,
                    groups@.len() == 27 + xx * 2 + yy,
                    standard == standard_groups(3, 3),
                    forall|k: int| 0 <= k < 27 ==> (#[trigger] groups@[k])@ == standard[k],
                    forall|k: int|
                        0 <= k < xx * 2 + yy ==> (#[trigger] groups@[27 + k])@ == nrc_regions()[k],
                decreases 2 - yy,
            {
                let mut coords: Vec<Coord> = Vec::new();
                let ghost region = nrc_region(xx as int, yy as int);
                let mut x: usize = 0;
                while x < 3
                    invariant
                        x <= 3,
                        xx < 2,
                        yy < 2,
                        region == nrc_region(xx as int, yy as int),
                        coords@.len() == x * 3,
                        forall|j: int| 0 <= j < x * 3 ==> #[trigger] coords@[j] == region[j],
                    decreases 3 - x,
                {
                    let mut y: usize = 0;
                    while y < 3
                        invariant
                            x < 3,
                            y <= 3,
                            xx < 2,
                            yy < 2,
                            region == nrc_region(xx as int, yy as int),
                            coords@.len() == x * 3 + y,
                            forall|j: int|
                                0 <= j < x * 3 + y ==> #[trigger] coords@[j] == region[j],
                        decreases 3 - y,
                    {
                        coords.push(Coord::new(xx * 4 + 1 + x, yy * 4 + 1 + y));
                        y += 1;
                    }
                    x += 1;
                }
                proof {
                    assert(coords@ =~= region);
                    assert(nrc_regions()[xx * 2 + yy] == region);
                }
                groups.push(Group::new(coords));
                yy += 1;
            }
            xx += 1;
        }
        let ghost group_views = groups@.map_values(|group: Group| group@);
        proof {
            let expected = standard_groups(3, 3) + nrc_regions();
            assert(group_views.len() == expected.len());
            assert forall|k: int| 0 <= k < expected.len() implies group_views[k] == expected[k] by {
                if k < 27 {
                    assert(groups@[k]@ == standard[k]);
                } else {
                    assert(groups@[27 + (k - 27)]@ == nrc_regions()[k - 27]);
                }
            }
            assert(group_views =~= expected);
            lemma_nrc_board();
        }
        RectangularBoard { block_width: 3, block_height: 3, board: Board::new(cells, groups) }
    }

    /// The number of solutions of this puzzle, which must fit in a `usize`.
    pub fn count_solutions(self) -> (count: usize)
        requires
            self.board.wf(),
            self.board@.consistent(),
            self.board@.covered(),
            self.board@.solutions().len() <= usize::MAX,
        ensures
            count == self.board@.solutions().len(),
    {
        self.board.count_solutions()
    }

    /// Every solution of this puzzle, each with the block shape of this
    /// puzzle, in the order in which the search finds them.
    pub fn solve(&self) -> (solutions: Vec<Self>)
        requires
            self.board.wf(),
            self.board@.consistent(),
            self.board@.covered(),
        ensures
            solutions@.len() == self.board@.solutions().len(),
            forall|i: int|
                0 <= i < solutions@.len() ==> {
                    &&& (#[trigger] solutions@[i]).board@ == self.board@.solutions()[i]
                    &&& solutions@[i].board.wf()
                    &&& solutions@[i].board@.solved_from(self.board@)
                    &&& self.board@.groups_full() ==> solutions@[i].board@.valid_solution()
                    &&& solutions@[i].block_width == self.block_width
                    &&& solutions@[i].block_height == self.block_height
                },
    {
        let mut boards = self.board.solve();
        let ghost found = boards@;
        let mut reversed: Vec<RectangularBoard> = Vec::new();
        while boards.len() > 0
            invariant
                boards@.len() + reversed@.len() == found.len(),
                boards@ == found.take(boards@.len() as int),
                forall|i: int|
                    0 <= i < reversed@.len() ==> {
                        &&& (#[trigger] reversed@[i]).board == found[found.len() - 1 - i]
                        &&& reversed@[i].block_width == self.block_width
                        &&& reversed@[i].block_height == self.block_height
                    },
            decreases boards@.len(),
        {
            match boards.pop() {
                Some(board) => reversed.push(
                    RectangularBoard {
                        block_width: self.block_width,
                        block_height: self.block_height,
                        board,
                    },
                ),
                None => {},
            }
        }
        let mut solutions: Vec<RectangularBoard> = Vec::new();
        while reversed.len() > 0
            invariant
                reversed@.len() + solutions@.len() == found.len(),
                forall|i: int|
                    0 <= i < reversed@.len() ==> {
                        &&& (#[trigger] reversed@[i]).board == found[found.len() - 1 - i]
                        &&& reversed@[i].block_width == self.block_width
                        &&& reversed@[i].block_height == self.block_height
                    },
                forall|i: int|
                    0 <= i < solutions@.len() ==> {
                        &&& (#[trigger] solutions@[i]).board == found[i]
                        &&& solutions@[i].block_width == self.block_width
                        &&& solutions@[i].block_height == self.block_height
                    },
            decreases reversed@.len(),
        {
            match reversed.pop() {
                Some(puzzle) => solutions.push(puzzle),
                None => {},
            }
        }
        proof {
            assert forall|i: int| 0 <= i < solutions@.len() implies (#[trigger] solutions@[i]).board@
                == self.board@.solutions()[i] by {
                assert(board_views(found)[i] == found[i]@);
            }
        }
        solutions
    }
}

impl core::ops::Deref for RectangularBoard {
    type Target = Board;

    fn deref(&self) -> (board: &Board)
        ensures
            *board == self.board,
    {
        &self.board
    }
}

} // verus!
