//! The n queens puzzle: place n queens on an n by n board so that no two
//! of them share a row, column or diagonal.

use vstd::prelude::*;

use crate::Problem;

verus! {

/// The n queens puzzle for a board of side length `n`. The state never
/// changes during the search: every decision is recoverable from the
/// history alone.
pub struct NQueens {
    n: u32,
}

impl View for NQueens {
    type V = int;

    closed spec fn view(&self) -> int {
        self.n as int
    }
}

/// Position of an individual queen on the board.
#[derive(Clone, Copy)]
pub struct QueenAt {
    pub row: u32,
    pub column: u32,
}

/// Solution to the n queens problem: the column of the queen in each row,
/// top row first.
pub struct NQueensSolution {
    columns: Vec<u32>,
}

impl View for NQueensSolution {
    type V = Seq<u32>;

    closed spec fn view(&self) -> Seq<u32> {
        self.columns@
    }
}

impl NQueensSolution {
    /// The column of the queen in each row, top row first.
    pub fn columns(&self) -> (columns: &Vec<u32>)
        ensures
            columns@ == self@,
    {
        &self.columns
    }
}

/// The distance between two coordinates.
pub open spec fn dist(a: int, b: int) -> int {
    if a >= b {
        a - b
    } else {
        b - a
    }
}

/// The two queens are not allowed on the board at the same time.
pub open spec fn spec_conflicts(a: QueenAt, b: QueenAt) -> bool {
    ||| a.row == b.row
    ||| a.column == b.column
    ||| dist(a.row as int, b.row as int) == dist(a.column as int, b.column as int)
}

/// Some placed queen forbids the candidate.
spec fn clashes(history: Seq<QueenAt>, candidate: QueenAt) -> bool {
    exists|i: int| 0 <= i < history.len() && spec_conflicts(#[trigger] history[i], candidate)
}

/// The legal placements in `row` with a column below `upto`, in increasing
/// column order.
spec fn free_columns(history: Seq<QueenAt>, row: u32, upto: int) -> Seq<QueenAt>
    decreases upto,
{
    if upto <= 0 {
        Seq::empty()
    } else {
        let rest = free_columns(history, row, upto - 1);
        let candidate = QueenAt { row, column: (upto - 1) as u32 };
        if clashes(history, candidate) {
            rest
        } else {
            rest.push(candidate)
        }
    }
}

/// What [`free_columns`] offers: placements in the requested row with a
/// column below `upto`, none of them in conflict with a placed queen.
proof fn lemma_free_columns(history: Seq<QueenAt>, row: u32, upto: int)
    requires
        0 <= upto <= u32::MAX,
    ensures
        free_columns(history, row, upto).len() <= upto,
        forall|q: QueenAt|
            #[trigger] free_columns(history, row, upto).contains(q) ==> q.row == row
                && q.column < upto && !clashes(history, q),
    decreases upto,
{
    if upto > 0 {
        lemma_free_columns(history, row, upto - 1);
        assert forall|q: QueenAt| #[trigger]
            free_columns(history, row, upto).contains(q) implies q.row == row && q.column < upto
            && !clashes(history, q) by {
            let offered = free_columns(history, row, upto);
            let i = choose|i: int| 0 <= i < offered.len() && offered[i] == q;
            let rest = free_columns(history, row, upto - 1);
            if i < rest.len() {
                assert(rest.contains(q));
            }
        }
    }
}

impl QueenAt {
    /// True if the two queens are not allowed on the board at the same
    /// time.
    pub fn conflicts(self, other: QueenAt) -> (clash: bool)
        ensures
            clash == spec_conflicts(self, other),
    {
        let row_dist = if self.row >= other.row {
            self.row - other.row
        } else {
            other.row - self.row
        };
        let column_dist = if self.column >= other.column {
            self.column - other.column
        } else {
            other.column - self.column
        };
        self.row == other.row || self.column == other.column || row_dist == column_dist
    }
}

impl NQueens {
    pub fn new(n: u32) -> (board: Self)
        ensures
            board@ == n as int,
            NQueens::inv(board@),
            NQueens::hist_inv(board@, Seq::empty()),
    {
        Self { n }
    }
}

impl Problem for NQueens {
    type Posibility = QueenAt;

    type Solution = NQueensSolution;

    closed spec fn inv(m: int) -> bool {
        0 <= m <= u32::MAX
    }

    closed spec fn hist_inv(m: int, history: Seq<QueenAt>) -> bool {
        &&& history.len() <= m
        &&& forall|i: int| 0 <= i < history.len() ==> (#[trigger] history[i]).row == i
        &&& forall|i: int| 0 <= i < history.len() ==> (#[trigger] history[i]).column < m
    }

    closed spec fn may_play(m: int, decision: QueenAt) -> bool {
        true
    }

    closed spec fn spec_possibilities(m: int, history: Seq<QueenAt>) -> Seq<QueenAt> {
        if history.len() >= m {
            Seq::empty()
        } else {
            free_columns(history, history.len() as u32, m)
        }
    }

    closed spec fn spec_what_if(m: int, decision: QueenAt) -> int {
        m
    }

    closed spec fn spec_undo(m: int, last: QueenAt, history: Seq<QueenAt>) -> int {
        m
    }

    closed spec fn spec_solution(m: int, history: Seq<QueenAt>) -> Option<Seq<u32>> {
        if history.len() == m {
            Some(history.map_values(|q: QueenAt| q.column))
        } else {
            None
        }
    }

    closed spec fn depth_bound(m: int) -> nat {
        if m >= 0 {
            m as nat
        } else {
            0
        }
    }

    closed spec fn branch_bound(m: int) -> nat {
        if m >= 0 {
            m as nat
        } else {
            0
        }
    }

    // Give all possible positions for the top empty row.
    fn extend_possibilities(&self, possibilities: &mut Vec<QueenAt>, history: &[QueenAt]) {
        if history.len() >= self.n as usize {
            return ;
        }
        let row = history.len() as u32;
        let mut column: u32 = 0;
        while column < self.n
            invariant
                column <= self.n,
                history@.len() < self.n as int,
                row == history@.len() as u32,
                possibilities@ == free_columns(history@, row, column as int),
            decreases self.n - column,
        {
            let candidate = QueenAt { row, column };
            let mut clash = false;
            let mut placed: usize = 0;
            while placed < history.len()
                invariant
                    placed <= history@.len(),
                    clash <==> exists|j: int|
                        0 <= j < placed && spec_conflicts(#[trigger] history@[j], candidate),
                decreases history@.len() - placed,
            {
                if history[placed].conflicts(candidate) {
                    clash = true;
                }
                placed += 1;
            }
            if !clash {
                possibilities.push(candidate);
            }
            column += 1;
        }
    }

    fn undo(&mut self, last: &QueenAt, history: &[QueenAt]) {
    }

    fn what_if(&mut self, decision: QueenAt) {
    }

    fn is_solution(&self, history: &[QueenAt]) -> (solution: Option<NQueensSolution>) {
        if history.len() == self.n as usize {
            let mut columns: Vec<u32> = Vec::new();
            let mut index: usize = 0;
            while index < history.len()
                invariant
                    index <= history@.len(),
                    columns@ == history@.take(index as int).map_values(|q: QueenAt| q.column),
                decreases history@.len() - index,
            {
                let ghost before = history@.take(index as int);
                columns.push(history[index].column);
                proof {
                    let upto = history@.take(index as int + 1);
                    assert(upto.drop_last() =~= before);
                    assert(upto.last() == history@[index as int]);
                    assert(upto.map_values(|q: QueenAt| q.column) =~= before.map_values(
                        |q: QueenAt| q.column,
                    ).push(history@[index as int].column));
                }
                index += 1;
            }
            proof {
                assert(history@.take(history@.len() as int) =~= history@);
            }
            Some(NQueensSolution { columns })
        } else {
            None
        }
    }

    proof fn law_step(m: int, history: Seq<QueenAt>, decision: QueenAt) {
        assert(history.len() < m);
        lemma_free_columns(history, history.len() as u32, m);
        let played = history.push(decision);
        assert(decision.row == history.len() as u32);
        assert forall|i: int| 0 <= i < played.len() implies (#[trigger] played[i]).row == i by {
            if i < history.len() {
                assert(played[i] == history[i]);
            }
        }
        assert forall|i: int| 0 <= i < played.len() implies (#[trigger] played[i]).column < m by {
            if i < history.len() {
                assert(played[i] == history[i]);
            }
        }
    }

    proof fn law_finite(m: int, history: Seq<QueenAt>) {
        if history.len() < m {
            lemma_free_columns(history, history.len() as u32, m);
        }
    }
}

} // verus!
