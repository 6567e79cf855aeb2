use vstd::prelude::*;
use vstd::string::StringExecFns;

use crate::board::BoardView;
use crate::cell::CellView;
use crate::coord::Coord;
use crate::rectangular::RectangularBoard;

verus! {

/// The text of one decimal digit.
pub open spec fn digit_text(digit: int) -> Seq<char> {
    if digit == 0 {
        "0"@
    } else if digit == 1 {
        "1"@
    } else if digit == 2 {
        "2"@
    } else if digit == 3 {
        "3"@
    } else if digit == 4 {
        "4"@
    } else if digit == 5 {
        "5"@
    } else if digit == 6 {
        "6"@
    } else if digit == 7 {
        "7"@
    } else if digit == 8 {
        "8"@
    } else {
        "9"@
    }
}

/// The decimal text of a number: its digits, the most significant first,
/// without leading zeros.
pub open spec fn decimal_text(number: nat) -> Seq<char>
    decreases number,
{
    if number < 10 {
        digit_text(number as int)
    } else {
        decimal_text(number / 10) + digit_text((number % 10) as int)
    }
}

/// The text that stands for a cell: its value counted from 1, or a blank
/// where the cell is not down to one value.
pub open spec fn cell_text(cell: CellView) -> Seq<char> {
    match cell.resolved() {
        Some(value) => decimal_text((value + 1) as nat),
        None => " "@,
    }
}

/// The first `upto` columns of a ruled line: `edge` at each column that
/// begins a block of `width` columns, `inner` at every other column.
pub open spec fn ruled_columns(width: nat, upto: nat, edge: Seq<char>, inner: Seq<char>) -> Seq<
    char,
>
    decreases upto,
{
    if upto == 0 {
        Seq::empty()
    } else {
        let column = (upto - 1) as nat;
        ruled_columns(width, column, edge, inner) + (if column % width == 0 {
            edge
        } else {
            inner
        })
    }
}

/// The line that separates two rows of blocks.
pub open spec fn separator_row(size: nat, width: nat) -> Seq<char> {
    ruled_columns(width, size, "+---"@, "----"@) + "+\n"@
}

/// The line between two rows of cells of one row of blocks.
pub open spec fn empty_row(size: nat, width: nat) -> Seq<char> {
    ruled_columns(width, size, "|   "@, "    "@) + "|\n"@
}

/// The first `upto` cells of the line that shows row `y`: each cell after a
/// bar where it begins a block and after blanks where it does not.
pub open spec fn value_columns(board: BoardView, width: nat, y: nat, upto: nat) -> Seq<char>
    decreases upto,
{
    if upto == 0 {
        Seq::empty()
    } else {
        let x = (upto - 1) as nat;
        let text = cell_text(board.cell(Coord { x: x as usize, y: y as usize }));
        value_columns(board, width, y, x) + (if x % width == 0 {
            "| "@
        } else {
            "  "@
        }) + text + " "@
    }
}

/// The line that shows row `y`.
pub open spec fn value_row(board: BoardView, width: nat, y: nat) -> Seq<char> {
    value_columns(board, width, y, board.size()) + "|\n"@
}

/// The lines for the first `upto` rows: before each row a separator where
/// the row begins a block and an empty line where it does not.
pub open spec fn rendered_rows(board: BoardView, width: nat, height: nat, upto: nat) -> Seq<char>
    decreases upto,
{
    if upto == 0 {
        Seq::empty()
    } else {
        let y = (upto - 1) as nat;
        rendered_rows(board, width, height, y) + (if y % height == 0 {
            separator_row(board.size(), width)
        } else {
            empty_row(board.size(), width)
        }) + value_row(board, width, y)
    }
}

/// The picture of a board with blocks of `width` columns and `height` rows.
pub open spec fn rendered(board: BoardView, width: nat, height: nat) -> Seq<char> {
    rendered_rows(board, width, height, board.size()) + separator_row(board.size(), width)
}

fn digit_str(digit: usize) -> (text: &'static str)
    requires
        digit < 10,
    ensures
        text@ == digit_text(digit as int),
{
    if digit == 0 {
        "0"
    } else if digit == 1 {
        "1"
    } else if digit == 2 {
        "2"
    } else if digit == 3 {
        "3"
    } else if digit == 4 {
        "4"
    } else if digit == 5 {
        "5"
    } else if digit == 6 {
        "6"
    } else if digit == 7 {
        "7"
    } else if digit == 8 {
        "8"
    } else {
        "9"
    }
}

/// The decimal text of `number`.
pub fn decimal(number: usize) -> (text: String)
    ensures
        text@ == decimal_text(number as nat),
    decreases number,
{
    if number < 10 {
        String::from_str(digit_str(number))
    } else {
        let mut text = decimal(number / 10);
        text.append(digit_str(number % 10));
        text
    }
}

fn ruled_line(size: usize, width: usize, edge: &str, inner: &str, end: &str, result: &mut String)
    requires
        width > 0,
    ensures
        final(result)@ == old(result)@ + ruled_columns(width as nat, size as nat, edge@, inner@)
            + end@,
{
    let ghost before = result@;
    let mut x: usize = 0;
    proof {
        assert(before + ruled_columns(width as nat, 0, edge@, inner@) =~= before);
    }
    while x < size
        invariant
            x <= size,
            width > 0,
            result@ == before + ruled_columns(width as nat, x as nat, edge@, inner@),
        decreases size - x,
    {
        let ghost done = ruled_columns(width as nat, x as nat, edge@, inner@);
        if x % width == 0 {
            result.append(edge);
            assert(before + done + edge@ =~= before + (done + edge@));
        } else {
            result.append(inner);
            assert(before + done + inner@ =~= before + (done + inner@));
        }
        x += 1;
    }
    result.append(end);
}

impl RectangularBoard {
    fn pretty_print_separator_row(&self, result: &mut String)
        requires
            self.block_width > 0,
        ensures
            final(result)@ == old(result)@ + separator_row(
                self.board@.size(),
                self.block_width as nat,
            ),
    {
        let ghost before = result@;
        let size = self.board.cells.group_size();
        ruled_line(size, self.block_width, "+---", "----", "+\n", result);
        proof {
            let columns = ruled_columns(self.block_width as nat, size as nat, "+---"@, "----"@);
            assert(before + columns + "+\n"@ =~= before + (columns + "+\n"@));
        }
    }

    fn pretty_print_empty_row(&self, result: &mut String)
        requires
            self.block_width > 0,
        ensures
            final(result)@ == old(result)@ + empty_row(
                self.board@.size(),
                self.block_width as nat,
            ),
    {
        let ghost before = result@;
        let size = self.board.cells.group_size();
        ruled_line(size, self.block_width, "|   ", "    ", "|\n", result);
        proof {
            let columns = ruled_columns(self.block_width as nat, size as nat, "|   "@, "    "@);
            assert(before + columns + "|\n"@ =~= before + (columns + "|\n"@));
        }
    }

    fn pretty_print_value_row(&self, y: usize, result: &mut String)
        requires
            self.board.wf(),
            self.block_width > 0,
            y < self.board@.size(),
        ensures
            final(result)@ == old(result)@ + value_row(
                self.board@,
                self.block_width as nat,
                y as nat,
            ),
    {
        let ghost before = result@;
        let ghost width = self.block_width as nat;
        let size = self.board.cells.group_size();
        let mut x: usize = 0;
        proof {
            assert(before + value_columns(self.board@, width, y as nat, 0) =~= before);
        }
        while x < size
            invariant
                x <= size,
                size == self.board@.size(),
                y < size,
                self.board.wf(),
                self.block_width > 0,
                width == self.block_width,
                result@ == before + value_columns(self.board@, width, y as nat, x as nat),
            decreases size - x,
        {
            let ghost done = value_columns(self.board@, width, y as nat, x as nat);
            let coord = Coord::new(x, y);
            let ghost lead = if x % self.block_width == 0 {
                "| "@
            } else {
                "  "@
            };
            if x % self.block_width == 0 {
                result.append("| ");
            } else {
                result.append("  ");
            }
            match self.board.get_cell(&coord).get_value() {
                Some(value) => {
                    proof {
                        crate::propagation::lemma_resolved_candidate(self.board@, coord);
                    }
                    let text = decimal(value + 1);
                    result.append(text.as_str());
                },
                None => {
                    result.append(" ");
                },
            }
            result.append(" ");
            proof {
                let text = cell_text(self.board@.cell(coord));
                assert(before + done + lead + text + " "@ =~= before + (done + lead + text + " "@));
            }
            x += 1;
        }
        result.append("|\n");
        proof {
            let columns = value_columns(self.board@, width, y as nat, size as nat);
            assert(before + columns + "|\n"@ =~= before + (columns + "|\n"@));
        }
    }

    /// The picture of this puzzle as text: one line for each row of cells,
    /// each cell shown by its value counted from 1 or left blank, the blocks
    /// set apart by ruled lines.
    pub fn pretty_print(&self) -> (picture: String)
        requires
            self.board.wf(),
            self.block_width > 0,
            self.block_height > 0,
        ensures
            picture@ == rendered(
                self.board@,
                self.block_width as nat,
                self.block_height as nat,
            ),
    {
        let ghost width = self.block_width as nat;
        let ghost height = self.block_height as nat;
        let size = self.board.cells.group_size();
        let mut result = String::new();
        proof {
            assert(result@ =~= rendered_rows(self.board@, width, height, 0));
        }
        let mut y: usize = 0;
        while y < size
            invariant
                y <= size,
                size == self.board@.size(),
                self.board.wf(),
                self.block_width > 0,
                self.block_height > 0,
                width == self.block_width,
                height == self.block_height,
                result@ == rendered_rows(self.board@, width, height, y as nat),
            decreases size - y,
        {
            if y % self.block_height == 0 {
                self.pretty_print_separator_row(&mut result);
            } else {
                self.pretty_print_empty_row(&mut result);
            }
            self.pretty_print_value_row(y, &mut result);
            y += 1;
        }
        self.pretty_print_separator_row(&mut result);
        result
    }
}

} // verus!
