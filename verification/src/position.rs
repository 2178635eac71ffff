//! Squares of the 8 by 8 chess board a knight travels on.

use vstd::prelude::*;

verus! {

/// A square of the 8 by 8 board, stored as `row * 8 + column`.
#[derive(PartialEq, Eq, Clone, Copy, Debug, Structural)]
pub struct Position {
    index: i8,
}

impl Position {
    /// The square's place in row-major order.
    pub closed spec fn spec_idx(self) -> int {
        self.index as int
    }

    /// The square lies on the board.
    pub open spec fn in_board(self) -> bool {
        0 <= self.spec_idx() < 64
    }

    /// The knight moves reachable from this square, in a fixed order.
    pub closed spec fn spec_reachable(self) -> Seq<Position> {
        step_to(self, 2, 1) + step_to(self, 2, -1) + step_to(self, 1, 2) + step_to(self, 1, -2)
            + step_to(self, -1, 2) + step_to(self, -1, -2) + step_to(self, -2, 1) + step_to(
            self,
            -2,
            -1,
        )
    }

    pub fn new(row: i8, column: i8) -> (position: Self)
        requires
            0 <= row < 8,
            0 <= column < 8,
        ensures
            position.spec_idx() == row * 8 + column,
            position.in_board(),
    {
        Self { index: row * 8 + column }
    }

    pub fn as_index(self) -> (index: usize)
        requires
            self.in_board(),
        ensures
            index == self.spec_idx(),
    {
        self.index as usize
    }

    pub fn row(self) -> (row: i8)
        requires
            self.in_board(),
        ensures
            row == self.spec_idx() / 8,
            0 <= row < 8,
    {
        self.index / 8
    }

    pub fn column(self) -> (column: i8)
        requires
            self.in_board(),
        ensures
            column == self.spec_idx() % 8,
            0 <= column < 8,
    {
        self.index % 8
    }

    /// The square's name: a letter for the row and a digit for the
    /// column, the upper left corner being `A1`.
    pub open spec fn spec_chars(self) -> Seq<char> {
        seq![row_char(self.spec_idx() / 8), column_char(self.spec_idx() % 8)]
    }

    /// Renders the square's name.
    pub fn to_string(&self) -> (text: String)
        requires
            self.in_board(),
        ensures
            text@ == self.spec_chars(),
    {
        let mut text = String::new();
        let letter = (65 + self.row() as u8) as char;
        let digit = (49 + self.column() as u8) as char;
        text.push(letter);
        text.push(digit);
        proof {
            assert(text@ =~= self.spec_chars());
        }
        text
    }

    /// All possible moves of a knight, taking into account the limits of
    /// the board.
    pub fn reachable_fields(&self, possible_moves: &mut Vec<Position>)
        requires
            self.in_board(),
        ensures
            final(possible_moves)@ == self.spec_reachable(),
    {
        possible_moves.clear();
        let row = self.row();
        let column = self.column();
        push_step(possible_moves, row + 2, column + 1);
        push_step(possible_moves, row + 2, column - 1);
        push_step(possible_moves, row + 1, column + 2);
        push_step(possible_moves, row + 1, column - 2);
        push_step(possible_moves, row - 1, column + 2);
        push_step(possible_moves, row - 1, column - 2);
        push_step(possible_moves, row - 2, column + 1);
        push_step(possible_moves, row - 2, column - 1);
        assert(possible_moves@ =~= self.spec_reachable());
    }
}

/// The square `delta_row` and `delta_column` away, if it stays on the
/// board; no square otherwise.
spec fn step_to(from: Position, delta_row: int, delta_column: int) -> Seq<Position> {
    let row = from.spec_idx() / 8 + delta_row;
    let column = from.spec_idx() % 8 + delta_column;
    if 0 <= row < 8 && 0 <= column < 8 {
        seq![Position { index: (row * 8 + column) as i8 }]
    } else {
        Seq::empty()
    }
}

/// Appends the square at `row` and `column` if both lie within the board.
fn push_step(possible_moves: &mut Vec<Position>, row: i8, column: i8)
    requires
        -2 <= row <= 9,
        -2 <= column <= 9,
    ensures
        0 <= row < 8 && 0 <= column < 8 ==> final(possible_moves)@ == old(possible_moves)@.push(
            Position { index: (row * 8 + column) as i8 },
        ),
        !(0 <= row < 8 && 0 <= column < 8) ==> final(possible_moves)@ == old(possible_moves)@,
{
    if 0 <= row && row < 8 && 0 <= column && column < 8 {
        possible_moves.push(Position { index: row * 8 + column });
    }
}

/// The letter a row is printed as.
pub open spec fn row_char(row: int) -> char {
    ((65 + row) as u8) as char
}

/// The digit a column is printed as.
pub open spec fn column_char(column: int) -> char {
    ((49 + column) as u8) as char
}

/// What [`Position::spec_reachable`] offers: at most eight squares, all of
/// them on the board.
pub proof fn lemma_reachable_fields(position: Position)
    requires
        position.in_board(),
    ensures
        position.spec_reachable().len() <= 8,
        forall|i: int|
            0 <= i < position.spec_reachable().len() ==> (
            #[trigger] position.spec_reachable()[i]).in_board(),
{
}

} // verus!
