//! The sudoku puzzle: fill the 9 by 9 grid so that every row, column and
//! 3 by 3 group holds each digit at most once.

use vstd::prelude::*;

use crate::Problem;

verus! {

/// A sudoku grid. All 9 by 9 fields, in top to bottom, left to right
/// order. `0` represents empty; the other valid values are `1..=9`.
pub struct Sudoku {
    fields: [u8; 81],
}

impl View for Sudoku {
    type V = Seq<u8>;

    closed spec fn view(&self) -> Seq<u8> {
        self.fields@
    }
}

/// Writing `digit` into the cell at `index`: one decision of the puzzle.
#[derive(Clone, Copy)]
pub struct WriteDigit {
    pub index: u8,
    pub digit: u8,
}

/// Some cell of the grid is empty.
spec fn has_free(fields: Seq<u8>) -> bool {
    exists|cell: int| 0 <= cell < fields.len() && fields[cell] == 0
}

/// `cell` is the first empty cell of the grid, in scan order.
spec fn is_first_free(fields: Seq<u8>, cell: int) -> bool {
    &&& 0 <= cell < fields.len()
    &&& fields[cell] == 0
    &&& forall|j: int| 0 <= j < cell ==> fields[j] != 0
}

/// The first empty cell of the grid.
spec fn first_free(fields: Seq<u8>) -> int {
    choose|cell: int| is_first_free(fields, cell)
}

/// The row a cell lies in.
spec fn row_of(cell: int) -> int {
    cell / 9
}

/// The column a cell lies in.
spec fn col_of(cell: int) -> int {
    cell % 9
}

/// The upper left cell of the 3 by 3 group a cell lies in.
spec fn group_off(cell: int) -> int {
    let group = col_of(cell) / 3 + (row_of(cell) / 3) * 3;
    group * 3 + (group / 3) * 18
}

/// The value of one cell of the grid.
spec fn cell_value(fields: Seq<u8>, cell: int) -> u8 {
    fields[cell]
}

/// The cell `c` places into the row of `cell`.
spec fn row_cell(cell: int, c: int) -> int {
    row_of(cell) * 9 + c
}

/// The cell `r` places into the column of `cell`.
spec fn col_cell(cell: int, r: int) -> int {
    col_of(cell) + r * 9
}

/// The cell `i` places into the 3 by 3 group of `cell`.
spec fn group_cell(cell: int, i: int) -> int {
    group_off(cell) + i % 3 + (i / 3) * 9
}

/// The digit already stands in the cell's row.
spec fn in_row(fields: Seq<u8>, cell: int, digit: u8) -> bool {
    exists|c: int| 0 <= c < 9 && (#[trigger] cell_value(fields, row_cell(cell, c))) == digit
}

/// The digit already stands in the cell's column.
spec fn in_col(fields: Seq<u8>, cell: int, digit: u8) -> bool {
    exists|r: int| 0 <= r < 9 && (#[trigger] cell_value(fields, col_cell(cell, r))) == digit
}

/// The digit already stands in the cell's 3 by 3 group.
spec fn in_group(fields: Seq<u8>, cell: int, digit: u8) -> bool {
    exists|i: int| 0 <= i < 9 && (#[trigger] cell_value(fields, group_cell(cell, i))) == digit
}

/// The digit may be written into the cell without repeating it in the
/// cell's row, column or group.
spec fn digit_fits(fields: Seq<u8>, cell: int, digit: u8) -> bool {
    &&& !in_row(fields, cell, digit)
    &&& !in_col(fields, cell, digit)
    &&& !in_group(fields, cell, digit)
}

/// The decisions writing one of the digits `1..=digit` into `cell`, in
/// increasing order, restricted to the digits that fit there.
spec fn digits_upto(fields: Seq<u8>, cell: int, digit: u8) -> Seq<WriteDigit>
    decreases digit,
{
    if digit == 0 {
        Seq::empty()
    } else {
        let rest = digits_upto(fields, cell, (digit - 1) as u8);
        if digit_fits(fields, cell, digit) {
            rest.push(WriteDigit { index: cell as u8, digit })
        } else {
            rest
        }
    }
}

/// How many cells of the grid are empty.
spec fn count_free(fields: Seq<u8>) -> nat
    decreases fields.len(),
{
    if fields.len() == 0 {
        0
    } else {
        count_free(fields.drop_last()) + if fields.last() == 0 {
            1nat
        } else {
            0nat
        }
    }
}

proof fn lemma_count_free_le(fields: Seq<u8>)
    ensures
        count_free(fields) <= fields.len(),
    decreases fields.len(),
{
    if fields.len() > 0 {
        lemma_count_free_le(fields.drop_last());
    }
}

proof fn lemma_count_free_fill(fields: Seq<u8>, cell: int, digit: u8)
    requires
        0 <= cell < fields.len(),
        fields[cell] == 0,
        digit != 0,
    ensures
        count_free(fields.update(cell, digit)) + 1 == count_free(fields),
    decreases fields.len(),
{
    let updated = fields.update(cell, digit);
    if cell == fields.len() - 1 {
        assert(updated.drop_last() =~= fields.drop_last());
    } else {
        assert(updated.drop_last() =~= fields.drop_last().update(cell, digit));
        assert(updated.last() == fields.last());
        lemma_count_free_fill(fields.drop_last(), cell, digit);
    }
}

proof fn lemma_free_positive(fields: Seq<u8>, cell: int)
    requires
        0 <= cell < fields.len(),
        fields[cell] == 0,
    ensures
        count_free(fields) >= 1,
    decreases fields.len(),
{
    if cell < fields.len() - 1 {
        lemma_free_positive(fields.drop_last(), cell);
    }
}

/// An empty cell somewhere means there is a first empty cell.
proof fn lemma_exists_first_free(fields: Seq<u8>, cell: int)
    requires
        0 <= cell < fields.len(),
        fields[cell] == 0,
    ensures
        has_free(fields),
        exists|c: int| is_first_free(fields, c),
    decreases cell,
{
    if exists|j: int| 0 <= j < cell && fields[j] == 0 {
        let j = choose|j: int| 0 <= j < cell && fields[j] == 0;
        lemma_exists_first_free(fields, j);
    } else {
        assert(is_first_free(fields, cell));
    }
}

/// What [`digits_upto`] offers: at most `digit` decisions, each writing a
/// digit of `1..=digit` that fits into the cell.
proof fn lemma_digits_upto(fields: Seq<u8>, cell: int, digit: u8)
    ensures
        digits_upto(fields, cell, digit).len() <= digit,
        forall|w: WriteDigit|
            #[trigger] digits_upto(fields, cell, digit).contains(w) ==> w.index == cell as u8
                && 1 <= w.digit <= digit && digit_fits(fields, cell, w.digit),
    decreases digit,
{
    if digit > 0 {
        lemma_digits_upto(fields, cell, (digit - 1) as u8);
        assert forall|w: WriteDigit| #[trigger]
            digits_upto(fields, cell, digit).contains(w) implies w.index == cell as u8 && 1
            <= w.digit <= digit && digit_fits(fields, cell, w.digit) by {
            let offered = digits_upto(fields, cell, digit);
            let i = choose|i: int| 0 <= i < offered.len() && offered[i] == w;
            let rest = digits_upto(fields, cell, (digit - 1) as u8);
            if i < rest.len() {
                assert(rest.contains(w));
            }
        }
    }
}

impl Sudoku {
    pub fn new() -> (sudoku: Self)
        ensures
            Sudoku::inv(sudoku@),
            Sudoku::hist_inv(sudoku@, Seq::empty()),
            forall|i: int| 0 <= i < 81 ==> sudoku@[i] == 0,
    {
        let fields = [0u8; 81];
        Self::from_bytes(fields)
    }

    pub fn from_bytes(bytes: [u8; 81]) -> (sudoku: Self)
        requires
            forall|i: int| 0 <= i < 81 ==> bytes@[i] <= 9,
        ensures
            sudoku@ == bytes@,
            Sudoku::inv(sudoku@),
            Sudoku::hist_inv(sudoku@, Seq::empty()),
    {
        proof {
            lemma_count_free_le(bytes@);
        }
        Self { fields: bytes }
    }

    pub fn from_slice(bytes: &[u8]) -> (sudoku: Self)
        requires
            bytes@.len() == 81,
            forall|i: int| 0 <= i < 81 ==> bytes@[i] <= 9,
        ensures
            sudoku@ == bytes@,
            Sudoku::inv(sudoku@),
            Sudoku::hist_inv(sudoku@, Seq::empty()),
    {
        let mut fields = [0u8; 81];
        let mut index: usize = 0;
        while index < 81
            invariant
                index <= 81,
                bytes@.len() == 81,
                forall|i: int| 0 <= i < index ==> fields@[i] == bytes@[i],
                forall|i: int| 0 <= i < 81 ==> bytes@[i] <= 9,
            decreases 81 - index,
        {
            fields[index] = bytes[index];
            index += 1;
        }
        proof {
            assert(fields@ =~= bytes@);
        }
        Self::from_bytes(fields)
    }

    /// True if writing `digit` into `cell` repeats it in neither the row,
    /// the column nor the 3 by 3 group of the cell.
    fn fits(&self, cell: usize, digit: u8) -> (fitting: bool)
        requires
            cell < 81,
            self@.len() == 81,
        ensures
            fitting == digit_fits(self@, cell as int, digit),
    {
        let row = cell / 9;
        let col = cell % 9;
        let group = col / 3 + (row / 3) * 3;
        let off = group * 3 + (group / 3) * 18;
        let mut at: usize = 0;
        while at < 9
            invariant
                at <= 9,
                row == row_of(cell as int),
                cell < 81,
                self@.len() == 81,
                forall|c: int|
                    0 <= c < at ==> (#[trigger] cell_value(self@, row_cell(cell as int, c)))
                        != digit,
            decreases 9 - at,
        {
            if self.fields[row * 9 + at] == digit {
                proof {
                    assert(cell_value(self@, row_cell(cell as int, at as int)) == digit);
                }
                return false;
            }
            at += 1;
        }
        let mut at: usize = 0;
        while at < 9
            invariant
                at <= 9,
                col == col_of(cell as int),
                cell < 81,
                self@.len() == 81,
                forall|r: int|
                    0 <= r < at ==> (#[trigger] cell_value(self@, col_cell(cell as int, r)))
                        != digit,
            decreases 9 - at,
        {
            if self.fields[col + at * 9] == digit {
                proof {
                    assert(cell_value(self@, col_cell(cell as int, at as int)) == digit);
                }
                return false;
            }
            at += 1;
        }
        let mut at: usize = 0;
        while at < 9
            invariant
                at <= 9,
                off == group_off(cell as int),
                cell < 81,
                self@.len() == 81,
                forall|i: int|
                    0 <= i < at ==> (#[trigger] cell_value(self@, group_cell(cell as int, i)))
                        != digit,
            decreases 9 - at,
        {
            if self.fields[off + (at % 3) + (at / 3) * 9] == digit {
                proof {
                    assert(cell_value(self@, group_cell(cell as int, at as int)) == digit);
                }
                return false;
            }
            at += 1;
        }
        true
    }
}

/// The character a cell is printed as: its digit, or `X` when empty.
pub open spec fn cell_char(value: u8) -> char {
    if value == 0 {
        'X'
    } else {
        ((48 + value) as u8) as char
    }
}

/// The text the first `upto` cells render to: nine cells per line.
pub open spec fn cells_text(fields: Seq<u8>, upto: int) -> Seq<char>
    decreases upto,
{
    if upto <= 0 {
        Seq::empty()
    } else {
        let line_break: Seq<char> = if (upto - 1) % 9 == 0 && upto - 1 != 0 {
            seq!['\n']
        } else {
            Seq::empty()
        };
        cells_text(fields, upto - 1) + line_break + seq![cell_char(fields[upto - 1])]
    }
}

/// The text the whole grid renders to.
pub open spec fn grid_text(fields: Seq<u8>) -> Seq<char> {
    cells_text(fields, 81) + seq!['\n']
}

impl Sudoku {
    /// The grid as text, exactly as [`Sudoku::print_to`] writes it.
    pub fn render(&self) -> (text: String)
        requires
            Sudoku::inv(self@),
        ensures
            text@ == grid_text(self@),
    {
        let mut text = String::new();
        let mut index: usize = 0;
        proof {
            assert(text@ =~= cells_text(self@, 0));
        }
        while index < 81
            invariant
                index <= 81,
                Sudoku::inv(self@),
                text@ == cells_text(self@, index as int),
            decreases 81 - index,
        {
            if index % 9 == 0 && index != 0 {
                text.push('\n');
            }
            let value = self.fields[index];
            let printed = if value == 0 {
                'X'
            } else {
                (48 + value) as char
            };
            text.push(printed);
            index += 1;
        }
        text.push('\n');
        text
    }

    /// Prints the grid to the given sink. The text written is
    /// [`Sudoku::render`]'s; what becomes of it is the sink's affair.
    pub fn print_to<W: std::io::Write>(&self, to: &mut W) -> (result: std::io::Result<()>)
        requires
            Sudoku::inv(self@),
    {
        let text = self.render();
        crate::text::write_all_to(to, text.as_str())
    }
}

impl Default for Sudoku {
    fn default() -> (sudoku: Self)
        ensures
            Sudoku::inv(sudoku@),
            Sudoku::hist_inv(sudoku@, Seq::empty()),
            forall|i: int| 0 <= i < 81 ==> sudoku@[i] == 0,
    {
        Self::new()
    }
}

impl Problem for Sudoku {
    type Posibility = WriteDigit;

    type Solution = Sudoku;

    closed spec fn inv(m: Seq<u8>) -> bool {
        &&& m.len() == 81
        &&& forall|i: int| 0 <= i < 81 ==> #[trigger] m[i] <= 9
    }

    closed spec fn hist_inv(m: Seq<u8>, history: Seq<WriteDigit>) -> bool {
        &&& history.len() + count_free(m) <= 81
        &&& forall|i: int| 0 <= i < history.len() ==> (#[trigger] history[i]).index < 81
    }

    closed spec fn may_play(m: Seq<u8>, decision: WriteDigit) -> bool {
        decision.index < 81
    }

    closed spec fn spec_possibilities(m: Seq<u8>, history: Seq<WriteDigit>) -> Seq<WriteDigit> {
        if has_free(m) {
            digits_upto(m, first_free(m), 9)
        } else {
            Seq::empty()
        }
    }

    closed spec fn spec_what_if(m: Seq<u8>, decision: WriteDigit) -> Seq<u8> {
        m.update(decision.index as int, decision.digit)
    }

    closed spec fn spec_undo(m: Seq<u8>, last: WriteDigit, history: Seq<WriteDigit>) -> Seq<u8> {
        m.update(last.index as int, 0)
    }

    closed spec fn spec_solution(m: Seq<u8>, history: Seq<WriteDigit>) -> Option<Seq<u8>> {
        if has_free(m) {
            None
        } else {
            Some(m)
        }
    }

    closed spec fn depth_bound(m: Seq<u8>) -> nat {
        82
    }

    closed spec fn branch_bound(m: Seq<u8>) -> nat {
        9
    }

    // We look over all possibilities for the first free cell.
    fn extend_possibilities(&self, possibilities: &mut Vec<WriteDigit>, history: &[WriteDigit]) {
        let mut free: usize = 81;
        let mut index: usize = 0;
        while index < 81
            invariant
                index <= 81,
                free <= 81,
                self@.len() == 81,
                free == 81 ==> forall|j: int| 0 <= j < index ==> self@[j] != 0,
                free < 81 ==> is_first_free(self@, free as int),
                old(possibilities)@.len() == 0,
                possibilities@ == old(possibilities)@,
            decreases 81 - index,
        {
            if free == 81 && self.fields[index] == 0 {
                free = index;
            }
            index += 1;
        }
        if free == 81 {
            proof {
                assert(!has_free(self@));
            }
            return ;
        }
        proof {
            assert(has_free(self@));
            assert(is_first_free(self@, free as int));
            assert(is_first_free(self@, first_free(self@)));
            assert(first_free(self@) == free as int);
        }
        let cell = free;
        let mut digit: u8 = 1;
        while digit <= 9
            invariant
                1 <= digit <= 10,
                cell < 81,
                self@.len() == 81,
                possibilities@ == digits_upto(self@, cell as int, (digit - 1) as u8),
            decreases 10 - digit,
        {
            if self.fits(cell, digit) {
                possibilities.push(WriteDigit { index: cell as u8, digit });
            }
            digit += 1;
        }
    }

    fn undo(&mut self, last: &WriteDigit, history: &[WriteDigit]) {
        proof {
            let played = history@.push(*last);
            assert(played[played.len() - 1] == *last);
        }
        self.fields[last.index as usize] = 0;
        proof {
            assert(self@ =~= Sudoku::spec_undo(old(self)@, *last, history@));
        }
    }

    fn what_if(&mut self, decision: WriteDigit) {
        self.fields[decision.index as usize] = decision.digit;
        proof {
            assert(self@ =~= Sudoku::spec_what_if(old(self)@, decision));
        }
    }

    fn is_solution(&self, history: &[WriteDigit]) -> (solution: Option<Sudoku>) {
        let mut index: usize = 0;
        while index < 81
            invariant
                index <= 81,
                self@.len() == 81,
                forall|j: int| 0 <= j < index ==> self@[j] != 0,
            decreases 81 - index,
        {
            if self.fields[index] == 0 {
                proof {
                    assert(has_free(self@));
                }
                return None;
            }
            index += 1;
        }
        proof {
            assert(!has_free(self@));
        }
        Some(Sudoku { fields: self.fields })
    }

    proof fn law_step(m: Seq<u8>, history: Seq<WriteDigit>, decision: WriteDigit) {
        assert(has_free(m));
        let witness = choose|z: int| 0 <= z < m.len() && m[z] == 0;
        lemma_exists_first_free(m, witness);
        let cell = first_free(m);
        assert(is_first_free(m, cell));
        lemma_digits_upto(m, cell, 9);
        assert(decision.index == cell as u8 && 1 <= decision.digit <= 9);
        assert(decision.index as int == cell);

        let stepped = Sudoku::spec_what_if(m, decision);
        let played = history.push(decision);

        // Undo after play restores the grid exactly: the cell was empty.
        assert(stepped.update(decision.index as int, 0) =~= m);

        // One empty cell fewer, one decision more.
        lemma_count_free_fill(m, cell, decision.digit);
        assert forall|i: int| 0 <= i < played.len() implies (#[trigger] played[i]).index < 81 by {
            if i < history.len() {
                assert(played[i] == history[i]);
            }
        }
        lemma_free_positive(m, cell);
    }

    proof fn law_finite(m: Seq<u8>, history: Seq<WriteDigit>) {
        if has_free(m) {
            lemma_digits_upto(m, first_free(m), 9);
        }
        lemma_free_positive_cap(m, history);
    }
}

/// A history at the depth bound leaves no room: the grid has no free cell
/// left to offer decisions for.
proof fn lemma_free_positive_cap(m: Seq<u8>, history: Seq<WriteDigit>)
    requires
        Sudoku::inv(m),
        Sudoku::hist_inv(m, history),
    ensures
        history.len() >= 82 ==> !has_free(m),
{
    lemma_count_free_le(m);
}

} // verus!
