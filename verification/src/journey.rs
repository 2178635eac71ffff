//! The knight's journey: a knight visits every field of the chess board
//! exactly once.

use vstd::prelude::*;

use crate::Problem;
use crate::position::Position;
use crate::position::lemma_reachable_fields;

verus! {

/// Number of fields of the board.
pub const NUM_FIELDS: usize = 64;

/// State of one knight's journey across the board.
#[derive(Clone, Debug, PartialEq)]
pub struct Journey {
    /// For fast lookup, whether a position has been visited or not.
    visited: [bool; NUM_FIELDS],
    /// Current position of the knight.
    current: Position,
    /// Starting position.
    start: Position,
}

/// The model of a journey: which fields are visited, where the knight
/// stands, and where it started.
#[verifier::ext_equal]
pub struct JourneyView {
    pub visited: Seq<bool>,
    pub current: Position,
    pub start: Position,
}

impl View for Journey {
    type V = JourneyView;

    closed spec fn view(&self) -> JourneyView {
        JourneyView { visited: self.visited@, current: self.current, start: self.start }
    }
}

/// A complete journey: every field of the board, in visiting order.
pub struct Solution {
    moves: Vec<Position>,
}

impl View for Solution {
    type V = Seq<Position>;

    closed spec fn view(&self) -> Seq<Position> {
        self.moves@
    }
}

/// The text a list of moves renders to: the squares' names in visiting
/// order, separated by blanks.
pub open spec fn moves_text(moves: Seq<Position>) -> Seq<char>
    decreases moves.len(),
{
    if moves.len() == 0 {
        Seq::empty()
    } else if moves.len() == 1 {
        moves[0].spec_chars()
    } else {
        moves_text(moves.drop_last()) + seq![' '] + moves.last().spec_chars()
    }
}

impl Solution {
    /// The fields of the journey, in visiting order.
    pub fn moves(&self) -> (moves: &Vec<Position>)
        ensures
            moves@ == self@,
    {
        &self.moves
    }

    /// Renders the journey: the fields in visiting order.
    pub fn to_string(&self) -> (text: String)
        requires
            forall|i: int| 0 <= i < self@.len() ==> (#[trigger] self@[i]).in_board(),
        ensures
            text@ == moves_text(self@),
    {
        let mut text = String::new();
        let mut index: usize = 0;
        proof {
            assert(self@.take(0) =~= Seq::<Position>::empty());
        }
        while index < self.moves.len()
            invariant
                index <= self@.len(),
                forall|i: int| 0 <= i < self@.len() ==> (#[trigger] self@[i]).in_board(),
                text@ == moves_text(self@.take(index as int)),
            decreases self@.len() - index,
        {
            if index > 0 {
                text.push(' ');
            }
            let name = self.moves[index].to_string();
            text.push_str(name.as_str());
            proof {
                let upto = self@.take(index as int + 1);
                assert(upto.drop_last() =~= self@.take(index as int));
                assert(upto.last() == self@[index as int]);
                if index > 0 {
                    assert(text@ =~= moves_text(self@.take(index as int)) + seq![' ']
                        + self@[index as int].spec_chars());
                } else {
                    assert(text@ =~= self@[0].spec_chars());
                }
            }
            index += 1;
        }
        proof {
            assert(self@.take(self@.len() as int) =~= self@);
        }
        text
    }
}

/// How many entries of `fields` are set.
spec fn count_true(fields: Seq<bool>) -> nat
    decreases fields.len(),
{
    if fields.len() == 0 {
        0
    } else {
        count_true(fields.drop_last()) + if fields.last() {
            1nat
        } else {
            0nat
        }
    }
}

/// The moves of `moves` whose field is not yet visited, in order.
spec fn keep_unvisited(visited: Seq<bool>, moves: Seq<Position>) -> Seq<Position>
    decreases moves.len(),
{
    if moves.len() == 0 {
        Seq::empty()
    } else {
        let rest = keep_unvisited(visited, moves.drop_last());
        if moves.last().in_board() && !visited[moves.last().spec_idx()] {
            rest.push(moves.last())
        } else {
            rest
        }
    }
}

/// Some entry of `history` lands on the field `square`.
spec fn appears(history: Seq<Position>, square: int) -> bool {
    exists|i: int| 0 <= i < history.len() && (#[trigger] history[i]).spec_idx() == square
}

proof fn lemma_count_le(fields: Seq<bool>)
    ensures
        count_true(fields) <= fields.len(),
    decreases fields.len(),
{
    if fields.len() > 0 {
        lemma_count_le(fields.drop_last());
    }
}

proof fn lemma_count_update_true(fields: Seq<bool>, k: int)
    requires
        0 <= k < fields.len(),
        !fields[k],
    ensures
        count_true(fields.update(k, true)) == count_true(fields) + 1,
    decreases fields.len(),
{
    let updated = fields.update(k, true);
    if k == fields.len() - 1 {
        assert(updated.drop_last() =~= fields.drop_last());
    } else {
        assert(updated.drop_last() =~= fields.drop_last().update(k, true));
        assert(updated.last() == fields.last());
        lemma_count_update_true(fields.drop_last(), k);
    }
}

proof fn lemma_count_none(fields: Seq<bool>)
    requires
        forall|i: int| 0 <= i < fields.len() ==> !(#[trigger] fields[i]),
    ensures
        count_true(fields) == 0,
    decreases fields.len(),
{
    if fields.len() > 0 {
        lemma_count_none(fields.drop_last());
    }
}

/// What [`keep_unvisited`] keeps: unvisited fields of the board that were
/// among the moves, no more of them than there were moves.
proof fn lemma_keep_unvisited(visited: Seq<bool>, moves: Seq<Position>)
    ensures
        keep_unvisited(visited, moves).len() <= moves.len(),
        forall|p: Position|
            #[trigger] keep_unvisited(visited, moves).contains(p) ==> moves.contains(p)
                && p.in_board() && !visited[p.spec_idx()],
    decreases moves.len(),
{
    if moves.len() > 0 {
        lemma_keep_unvisited(visited, moves.drop_last());
        assert forall|p: Position| #[trigger]
            keep_unvisited(visited, moves).contains(p) implies moves.contains(p) && p.in_board()
            && !visited[p.spec_idx()] by {
            let kept = keep_unvisited(visited, moves);
            let i = choose|i: int| 0 <= i < kept.len() && kept[i] == p;
            let rest = keep_unvisited(visited, moves.drop_last());
            if i < rest.len() {
                assert(rest.contains(p));
                let j = choose|j: int| 0 <= j < moves.drop_last().len() && moves.drop_last()[j]
                    == p;
                assert(moves[j] == p);
            } else {
                assert(p == moves.last());
                assert(moves[moves.len() - 1] == p);
            }
        }
    }
}

impl Journey {
    pub fn new(start: Position) -> (journey: Self)
        requires
            start.in_board(),
        ensures
            Journey::inv(journey@),
            Journey::hist_inv(journey@, Seq::empty()),
            journey@.start == start,
            journey@.current == start,
    {
        let mut visited = [false; NUM_FIELDS];
        visited[start.as_index()] = true;
        let journey = Self { visited, current: start, start };
        proof {
            let m = journey@;
            assert forall|k: int| 0 <= k < 64 implies (m.visited[k] <==> k
                == m.start.spec_idx()) by {}
            lemma_count_none(m.visited.update(start.spec_idx(), false));
            lemma_count_update_true(m.visited.update(start.spec_idx(), false), start.spec_idx());
            assert(m.visited.update(start.spec_idx(), false).update(start.spec_idx(), true)
                =~= m.visited);
        }
        journey
    }
}

impl Problem for Journey {
    type Posibility = Position;

    type Solution = Solution;

    closed spec fn inv(m: JourneyView) -> bool {
        &&& m.visited.len() == 64
        &&& m.current.in_board()
        &&& m.start.in_board()
    }

    closed spec fn hist_inv(m: JourneyView, history: Seq<Position>) -> bool {
        &&& history.len() < 64
        &&& m.current == if history.len() == 0 {
            m.start
        } else {
            history.last()
        }
        &&& forall|i: int| 0 <= i < history.len() ==> (#[trigger] history[i]).in_board()
        &&& forall|i: int|
            0 <= i < history.len() ==> (#[trigger] history[i]).spec_idx() != m.start.spec_idx()
        &&& forall|i: int, j: int|
            0 <= i < j < history.len() ==> history[i].spec_idx() != history[j].spec_idx()
        &&& forall|k: int|
            0 <= k < 64 ==> ((#[trigger] m.visited[k]) <==> (k == m.start.spec_idx() || appears(
                history,
                k,
            )))
        &&& count_true(m.visited) == history.len() + 1
    }

    closed spec fn may_play(m: JourneyView, decision: Position) -> bool {
        &&& decision.in_board()
        &&& !m.visited[decision.spec_idx()]
    }

    closed spec fn spec_possibilities(m: JourneyView, history: Seq<Position>) -> Seq<Position> {
        keep_unvisited(m.visited, m.current.spec_reachable())
    }

    closed spec fn spec_what_if(m: JourneyView, decision: Position) -> JourneyView {
        JourneyView {
            visited: m.visited.update(decision.spec_idx(), true),
            current: decision,
            start: m.start,
        }
    }

    closed spec fn spec_undo(m: JourneyView, last: Position, history: Seq<Position>) -> JourneyView {
        JourneyView {
            visited: m.visited.update(last.spec_idx(), false),
            current: if history.len() == 0 {
                m.start
            } else {
                history.last()
            },
            start: m.start,
        }
    }

    closed spec fn spec_solution(m: JourneyView, history: Seq<Position>) -> Option<Seq<Position>> {
        if history.len() == 63 {
            Some(seq![m.start] + history)
        } else {
            None
        }
    }

    closed spec fn depth_bound(m: JourneyView) -> nat {
        64
    }

    closed spec fn branch_bound(m: JourneyView) -> nat {
        8
    }

    fn extend_possibilities(&self, possibilities: &mut Vec<Position>, history: &[Position]) {
        self.current.reachable_fields(possibilities);
        proof {
            lemma_reachable_fields(self.current);
        }
        let mut kept: Vec<Position> = Vec::new();
        let mut index: usize = 0;
        while index < possibilities.len()
            invariant
                index <= possibilities@.len(),
                possibilities@ == self@.current.spec_reachable(),
                self@.current.in_board(),
                forall|i: int|
                    0 <= i < possibilities@.len() ==> (#[trigger] possibilities@[i]).in_board(),
                kept@ == keep_unvisited(self@.visited, possibilities@.take(index as int)),
            decreases possibilities@.len() - index,
        {
            let ghost before = possibilities@.take(index as int);
            let next = possibilities[index];
            if !self.visited[next.as_index()] {
                kept.push(next);
            }
            proof {
                let upto = possibilities@.take(index as int + 1);
                assert(upto.drop_last() =~= before);
                assert(upto.last() == possibilities@[index as int]);
            }
            index += 1;
        }
        proof {
            assert(possibilities@.take(possibilities@.len() as int) =~= possibilities@);
        }
        *possibilities = kept;
    }

    fn undo(&mut self, last: &Position, history: &[Position]) {
        proof {
            let played = history@.push(*last);
            assert(played[played.len() - 1] == *last);
        }
        let n = history.len();
        self.current = if n > 0 {
            history[n - 1]
        } else {
            self.start
        };
        self.visited[last.as_index()] = false;
        proof {
            assert(history@.push(*last).last() == *last);
            assert(self@ =~= Journey::spec_undo(old(self)@, *last, history@));
        }
    }

    fn what_if(&mut self, decision: Position) {
        self.visited[decision.as_index()] = true;
        self.current = decision;
        proof {
            assert(self@ =~= Journey::spec_what_if(old(self)@, decision));
        }
    }

    fn is_solution(&self, history: &[Position]) -> (solution: Option<Solution>) {
        if history.len() == NUM_FIELDS - 1 {
            let mut moves: Vec<Position> = Vec::new();
            moves.push(self.start);
            let mut index: usize = 0;
            while index < history.len()
                invariant
                    index <= history@.len(),
                    moves@ == seq![self@.start] + history@.take(index as int),
                decreases history@.len() - index,
            {
                let ghost before = history@.take(index as int);
                moves.push(history[index]);
                proof {
                    let upto = history@.take(index as int + 1);
                    assert(upto.drop_last() =~= before);
                    assert(upto.last() == history@[index as int]);
                    assert((seq![self@.start] + before).push(history@[index as int]) =~= seq![
                        self@.start,
                    ] + upto);
                }
                index += 1;
            }
            proof {
                assert(history@.take(history@.len() as int) =~= history@);
            }
            Some(Solution { moves })
        } else {
            None
        }
    }

    proof fn law_step(m: JourneyView, history: Seq<Position>, decision: Position) {
        lemma_keep_unvisited(m.visited, m.current.spec_reachable());
        assert(keep_unvisited(m.visited, m.current.spec_reachable()).contains(decision));
        let stepped = Journey::spec_what_if(m, decision);
        let played = history.push(decision);

        // The decision's field was free, so the history stays distinct and
        // the visited count grows by exactly one.
        assert(!m.visited[decision.spec_idx()]);
        assert(!appears(history, decision.spec_idx()));
        lemma_count_update_true(m.visited, decision.spec_idx());
        lemma_count_le(stepped.visited);
        assert(stepped.visited.len() == 64);
        assert(played.len() < 64);

        // Undo after play restores the model exactly.
        assert(stepped.visited.update(decision.spec_idx(), false) =~= m.visited);
        assert(Journey::spec_undo(stepped, decision, history) =~= m);

        // The stepped model still mirrors its history.
        assert forall|k: int| 0 <= k < 64 implies (stepped.visited[k] <==> (k
            == stepped.start.spec_idx() || appears(played, k))) by {
            if k == decision.spec_idx() {
                assert(played[played.len() - 1].spec_idx() == k);
            } else {
                assert(appears(played, k) <==> appears(history, k)) by {
                    if appears(played, k) {
                        let i = choose|i: int|
                            0 <= i < played.len() && (#[trigger] played[i]).spec_idx() == k;
                        assert(history[i] == played[i]);
                    }
                    if appears(history, k) {
                        let i = choose|i: int|
                            0 <= i < history.len() && (#[trigger] history[i]).spec_idx() == k;
                        assert(played[i] == history[i]);
                    }
                }
            }
        }
        assert forall|i: int| 0 <= i < played.len() implies (#[trigger] played[i]).in_board() by {
            if i < history.len() {
                assert(played[i] == history[i]);
            }
        }
        assert forall|i: int| 0 <= i < played.len() implies (#[trigger] played[i]).spec_idx()
            != stepped.start.spec_idx() by {
            if i < history.len() {
                assert(played[i] == history[i]);
            } else {
                assert(played[i] == decision);
                assert(0 <= m.start.spec_idx() < 64);
                assert(m.visited[m.start.spec_idx()]);
            }
        }
        assert forall|i: int, j: int| 0 <= i < j < played.len() implies played[i].spec_idx()
            != played[j].spec_idx() by {
            if j < history.len() {
                assert(played[i] == history[i] && played[j] == history[j]);
            } else {
                assert(played[j] == decision);
                assert(played[i] == history[i]);
                assert(!appears(history, decision.spec_idx()));
            }
        }
    }

    proof fn law_finite(m: JourneyView, history: Seq<Position>) {
        lemma_keep_unvisited(m.visited, m.current.spec_reachable());
        lemma_reachable_fields(m.current);
    }
}

} // verus!
