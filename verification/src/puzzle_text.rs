use vstd::prelude::*;

use crate::board::{BoardView, Placement};
use crate::coord::Coord;
use crate::propagation::lemma_place_wf;
use crate::rectangular::{lemma_standard_board, lemma_unconfirmed_board, standard_board};
use crate::rectangular::RectangularBoard;

verus! {

/// The pieces of a text between the occurrences of `mark`: one piece more
/// than there are occurrences, empty where two of them meet or the text
/// begins or ends with one.
pub open spec fn pieces_of(text: Seq<char>, mark: char) -> Seq<Seq<char>>
    decreases text.len(),
{
    if text.len() == 0 {
        seq![Seq::empty()]
    } else {
        let rest = pieces_of(text.drop_first(), mark);
        if text[0] == mark {
            seq![Seq::empty()] + rest
        } else {
            rest.update(0, seq![text[0]] + rest[0])
        }
    }
}

/// A line without the carriage return that it may end with.
pub open spec fn without_return(line: Seq<char>) -> Seq<char> {
    if line.len() > 0 && line.last() == '\r' {
        line.drop_last()
    } else {
        line
    }
}

/// The lines of a text: the pieces that end with a line feed, each without
/// that line feed and without a carriage return before it, and what follows
/// the last line feed unless it is empty.
pub open spec fn lines_of(text: Seq<char>) -> Seq<Seq<char>> {
    let pieces = pieces_of(text, '\n');
    let ended = pieces.drop_last().map_values(|piece: Seq<char>| without_return(piece));
    if pieces.last().len() == 0 {
        ended
    } else {
        ended.push(pieces.last())
    }
}

/// The pieces of a line between its spaces.
pub open spec fn fields_of(line: Seq<char>) -> Seq<Seq<char>> {
    pieces_of(line, ' ')
}

/// The value of a decimal digit; none for any other character.
pub open spec fn digit_of(digit: char) -> Option<nat> {
    let code = digit as int;
    if 48 <= code <= 57 {
        Some((code - 48) as nat)
    } else {
        None
    }
}

/// The number that a text of decimal digits stands for; none where the text
/// is empty or holds anything but digits.
pub open spec fn digits_value(digits: Seq<char>) -> Option<nat>
    decreases digits.len(),
{
    if digits.len() == 0 {
        None
    } else {
        match digit_of(digits.last()) {
            None => None,
            Some(digit) => if digits.len() == 1 {
                Some(digit)
            } else {
                match digits_value(digits.drop_last()) {
                    Some(value) => Some(value * 10 + digit),
                    None => None,
                }
            },
        }
    }
}

/// The number that a piece of text stands for: decimal digits, after a plus
/// sign or without one, that give a number within `usize`. None for any
/// other text.
pub open spec fn number_of(field: Seq<char>) -> Option<usize> {
    let digits = if field.len() > 0 && field[0] == '+' {
        field.drop_first()
    } else {
        field
    };
    match digits_value(digits) {
        Some(value) => if value <= usize::MAX {
            Some(value as usize)
        } else {
            None
        },
        None => None,
    }
}

/// The texts of a sequence of strings.
pub open spec fn texts(strings: Seq<String>) -> Seq<Seq<char>> {
    strings.map_values(|string: String| string@)
}

/// Calls `str::lines` of the standard library and collects the lines. The
/// contract says what the documentation of `lines` says: the text is split
/// at each line feed, a carriage return just before a line feed belongs to
/// the line ending, a carriage return elsewhere does not, and a line ending
/// at the end of the text begins no further line.
#[verifier::external_body]
fn text_lines(text: &str) -> (lines: Vec<String>)
    ensures
        texts(lines@) == lines_of(text@),
{
    let mut lines: Vec<String> = Vec::new();
    for line in text.lines() {
        lines.push(line.to_string());
    }
    lines
}

/// Calls `str::split` of the standard library with the separator `' '` and
/// collects the pieces. The contract says what the documentation of `split`
/// says: the pieces between the spaces, empty pieces included.
#[verifier::external_body]
fn line_fields(line: &str) -> (fields: Vec<String>)
    ensures
        texts(fields@) == fields_of(line@),
{
    let mut fields: Vec<String> = Vec::new();
    for field in line.split(' ') {
        fields.push(field.to_string());
    }
    fields
}

/// Calls `str::parse::<usize>` of the standard library; an error becomes
/// `None`. The contract says what the documentation of `usize::from_str`
/// says: it reads decimal digits, with or without a plus sign before them,
/// and reports an error for an empty text, for any other character, and
/// for a number that does not fit.
#[verifier::external_body]
fn field_number(field: &str) -> (number: Option<usize>)
    ensures
        number == number_of(field@),
{
    field.parse::<usize>().ok()
}

/// One clue of a puzzle: the value for the cell at a position.
pub struct Clue {
    pub coord: Coord,
    pub value: usize,
}

/// The clue that three numbers stand for: a column, a row and a value, each
/// counted from 1. None where a number is 0 or the value is above 9.
pub open spec fn clue_of_numbers(column: usize, row: usize, value: usize) -> Option<Clue> {
    if column >= 1 && row >= 1 && 1 <= value <= 9 {
        Some(
            Clue {
                coord: Coord { x: (column - 1) as usize, y: (row - 1) as usize },
                value: (value - 1) as usize,
            },
        )
    } else {
        None
    }
}

/// The clue that the numbers of some fields stand for: none unless there are
/// three fields and each of them is a number.
pub open spec fn clue_of_fields(numbers: Seq<Option<usize>>) -> Option<Clue> {
    if numbers.len() == 3 && numbers[0] is Some && numbers[1] is Some && numbers[2] is Some {
        clue_of_numbers(numbers[0]->0, numbers[1]->0, numbers[2]->0)
    } else {
        None
    }
}

/// The clue that a line stands for: three numbers with one space between
/// them, the column, the row and the value, each counted from 1.
pub open spec fn clue_of_line(line: Seq<char>) -> Option<Clue> {
    clue_of_fields(fields_of(line).map_values(|field: Seq<char>| number_of(field)))
}

/// The clues that the lines of a text stand for, one for each line: none
/// where one of the lines stands for no clue.
pub open spec fn clues_of_lines(lines: Seq<Seq<char>>) -> Option<Seq<Clue>>
    decreases lines.len(),
{
    if lines.len() == 0 {
        Some(Seq::empty())
    } else {
        match (clues_of_lines(lines.drop_last()), clue_of_line(lines.last())) {
            (Some(clues), Some(clue)) => Some(clues.push(clue)),
            _ => None,
        }
    }
}

/// The clues of a puzzle text: none where one of its lines stands for no
/// clue.
pub open spec fn clues_of_text(text: Seq<char>) -> Option<Seq<Clue>> {
    clues_of_lines(lines_of(text))
}

/// The board that comes of prefilling each of the clues, one after the
/// other.
pub open spec fn with_clues(board: BoardView, clues: Seq<Clue>) -> BoardView
    decreases clues.len(),
{
    if clues.len() == 0 {
        board
    } else {
        with_clues(board, clues.drop_last()).place(
            clues.last().coord,
            clues.last().value as int,
            Placement::Prefill,
        )
    }
}

/// Prefilling clues on a board without confirmed cells confirms no cell and
/// keeps the board well formed and covered.
pub proof fn lemma_with_clues(board: BoardView, clues: Seq<Clue>)
    requires
        board.wf(),
        board.covered(),
        forall|coord: Coord| coord.within(board.size()) ==> !(#[trigger] board.cell(coord)).fixed,
        forall|i: int| 0 <= i < clues.len() ==> (#[trigger] clues[i]).value < board.size(),
    ensures
        with_clues(board, clues).wf(),
        with_clues(board, clues).covered(),
        with_clues(board, clues).consistent(),
        with_clues(board, clues).groups == board.groups,
        with_clues(board, clues).size() == board.size(),
        forall|coord: Coord|
            coord.within(board.size()) ==> !(#[trigger] with_clues(board, clues).cell(coord)).fixed,
        forall|coord: Coord, value: int| with_clues(board, clues).can_place(coord, value),
    decreases clues.len(),
{
    if clues.len() > 0 {
        let before = with_clues(board, clues.drop_last());
        lemma_with_clues(board, clues.drop_last());
        let clue = clues.last();
        lemma_place_wf(before, clue.coord, clue.value as int, Placement::Prefill);
        let after = before.place(clue.coord, clue.value as int, Placement::Prefill);
        assert forall|coord: Coord| coord.within(board.size()) implies !(#[trigger] after.cell(
            coord,
        )).fixed by {
            assert(!before.cell(coord).fixed);
        }
        lemma_unconfirmed_board(after);
    } else {
        lemma_unconfirmed_board(board);
    }
}

/// The clue that a column, a row and a value stand for, each counted from
/// 1: none where one of them is 0 or the value is above 9.
pub fn clue_from_numbers(column: usize, row: usize, value: usize) -> (clue: Option<Clue>)
    ensures
        clue == clue_of_numbers(column, row, value),
{
    if column >= 1 && row >= 1 && value >= 1 && value <= 9 {
        Some(Clue { coord: Coord::new(column - 1, row - 1), value: value - 1 })
    } else {
        None
    }
}

/// The clue that the numbers read from the fields of a line stand for: none
/// unless there are three fields, each is a number, and the numbers stand
/// for a clue.
pub fn clue_from_fields(numbers: &Vec<Option<usize>>) -> (clue: Option<Clue>)
    ensures
        clue == clue_of_fields(numbers@),
{
    if numbers.len() != 3 {
        return None;
    }
    match (numbers[0], numbers[1], numbers[2]) {
        (Some(column), Some(row), Some(value)) => clue_from_numbers(column, row, value),
        _ => None,
    }
}

/// Reads one line of a puzzle text: the clue it stands for, if it stands for
/// one.
pub fn parse_clue(line: &str) -> (clue: Option<Clue>)
    ensures
        clue == clue_of_line(line@),
{
    let fields = line_fields(line);
    let ghost expected = fields_of(line@).map_values(|field: Seq<char>| number_of(field));
    let mut numbers: Vec<Option<usize>> = Vec::new();
    let mut i: usize = 0;
    while i < fields.len()
        invariant
            i <= fields.len(),
            texts(fields@) == fields_of(line@),
            expected == fields_of(line@).map_values(|field: Seq<char>| number_of(field)),
            numbers@.len() == i,
            forall|j: int| 0 <= j < i ==> #[trigger] numbers@[j] == expected[j],
        decreases fields.len() - i,
    {
        proof {
            assert(texts(fields@)[i as int] == fields@[i as int]@);
        }
        numbers.push(field_number(fields[i].as_str()));
        i += 1;
    }
    assert(numbers@ =~= expected);
    clue_from_fields(&numbers)
}

/// Reads a puzzle text: one clue on each line. None where a line stands for
/// no clue.
pub fn parse_clues(text: &str) -> (clues: Option<Vec<Clue>>)
    ensures
        match clues {
            Some(found) => clues_of_text(text@) == Some(found@),
            None => clues_of_text(text@) is None,
        },
{
    let lines = text_lines(text);
    let ghost all = lines_of(text@);
    let mut clues: Vec<Clue> = Vec::new();
    let mut i: usize = 0;
    proof {
        assert(all.take(0) =~= Seq::<Seq<char>>::empty());
    }
    while i < lines.len()
        invariant
            i <= lines.len(),
            all == lines_of(text@),
            texts(lines@) == all,
            clues_of_lines(all.take(i as int)) == Some(clues@),
        decreases lines.len() - i,
    {
        proof {
            assert(all.take(i + 1).drop_last() =~= all.take(i as int));
            assert(all.take(i + 1).last() == all[i as int]);
            assert(texts(lines@)[i as int] == lines@[i as int]@);
        }
        match parse_clue(lines[i].as_str()) {
            Some(clue) => clues.push(clue),
            None => {
                proof {
                    lemma_clues_of_lines_prefix(all, i + 1);
                }
                return None;
            },
        }
        i += 1;
    }
    proof {
        assert(all.take(lines.len() as int) =~= all);
    }
    Some(clues)
}

/// Where the first lines of a text stand for no clues, the whole text stands
/// for none.
pub proof fn lemma_clues_of_lines_prefix(lines: Seq<Seq<char>>, upto: int)
    requires
        0 <= upto <= lines.len(),
        clues_of_lines(lines.take(upto)) is None,
    ensures
        clues_of_lines(lines) is None,
    decreases lines.len() - upto,
{
    if upto < lines.len() {
        assert(lines.take(upto + 1).drop_last() =~= lines.take(upto));
        lemma_clues_of_lines_prefix(lines, upto + 1);
    } else {
        assert(lines.take(upto) =~= lines);
    }
}

impl RectangularBoard {
    /// The regular 9x9 puzzle with each of `clues` prefilled.
    pub fn from_clues(clues: &Vec<Clue>) -> (puzzle: Self)
        requires
            forall|i: int| 0 <= i < clues@.len() ==> (#[trigger] clues@[i]).value < 9,
        ensures
            puzzle.block_width == 3,
            puzzle.block_height == 3,
            puzzle.board@ == with_clues(standard_board(3, 3), clues@),
            puzzle.board.wf(),
            puzzle.board@.consistent(),
            puzzle.board@.covered(),
            puzzle.board@.groups_full(),
    {
        let mut puzzle = RectangularBoard::new(3, 3);
        let ghost start = puzzle.board@;
        proof {
            lemma_standard_board(3, 3);
            assert(clues@.take(0) =~= Seq::<Clue>::empty());
        }
        let mut i: usize = 0;
        while i < clues.len()
            invariant
                i <= clues.len(),
                start == standard_board(3, 3),
                start.wf(),
                start.covered(),
                start.size() == 9,
                forall|coord: Coord| coord.within(9) ==> !(#[trigger] start.cell(coord)).fixed,
                forall|k: int| 0 <= k < clues@.len() ==> (#[trigger] clues@[k]).value < 9,
                puzzle.block_width == 3,
                puzzle.block_height == 3,
                puzzle.board.wf(),
                puzzle.board@ == with_clues(start, clues@.take(i as int)),
            decreases clues.len() - i,
        {
            proof {
                lemma_with_clues(start, clues@.take(i as int));
                assert(clues@.take(i + 1).drop_last() =~= clues@.take(i as int));
                assert(clues@.take(i + 1).last() == clues@[i as int]);
            }
            let coord = clues[i].coord;
            let value = clues[i].value;
            puzzle.board.prefill_value(&coord, value);
            i += 1;
        }
        proof {
            assert(clues@.take(clues.len() as int) =~= clues@);
            lemma_with_clues(start, clues@);
        }
        puzzle
    }

    /// The regular 9x9 puzzle that a text describes: on each line the column,
    /// the row and the value of one clue, each counted from 1, with one space
    /// between them. None where a line is no such clue.
    pub fn try_from_string(s: &str) -> (puzzle: Option<Self>)
        ensures
            match puzzle {
                Some(found) => {
                    &&& clues_of_text(s@) is Some
                    &&& found.block_width == 3
                    &&& found.block_height == 3
                    &&& found.board@ == with_clues(standard_board(3, 3), clues_of_text(s@)->0)
                    &&& found.board.wf()
                    &&& found.board@.consistent()
                    &&& found.board@.covered()
                    &&& found.board@.groups_full()
                },
                None => clues_of_text(s@) is None,
            },
    {
        match parse_clues(s) {
            Some(_) => Some(RectangularBoard::from_string(s)),
            None => None,
        }
    }

    /// The regular 9x9 puzzle that a text describes: on each line the column,
    /// the row and the value of one clue, each counted from 1, with one space
    /// between them. Every line must be such a clue.
    pub fn from_string(s: &str) -> (puzzle: Self)
        requires
            clues_of_text(s@) is Some,
        ensures
            puzzle.block_width == 3,
            puzzle.block_height == 3,
            puzzle.board@ == with_clues(standard_board(3, 3), clues_of_text(s@)->0),
            puzzle.board.wf(),
            puzzle.board@.consistent(),
            puzzle.board@.covered(),
            puzzle.board@.groups_full(),
    {
        match parse_clues(s) {
            Some(clues) => {
                proof {
                    lemma_clue_values(lines_of(s@));
                }
                RectangularBoard::from_clues(&clues)
            },
            None => vstd::pervasive::unreached(),
        }
    }
}

/// The values of the clues of a text lie below 9.
pub proof fn lemma_clue_values(lines: Seq<Seq<char>>)
    requires
        clues_of_lines(lines) is Some,
    ensures
        clues_of_lines(lines)->0.len() == lines.len(),
        forall|i: int|
            0 <= i < lines.len() ==> (#[trigger] clues_of_lines(lines)->0[i]).value < 9,
    decreases lines.len(),
{
    if lines.len() > 0 {
        lemma_clue_values(lines.drop_last());
    }
}

} // verus!
