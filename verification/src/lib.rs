//! Find solutions with backtracking.
//!
//! A [`Problem`] describes one search target: it enumerates the decisions
//! that may be taken from its current state, plays a decision, takes the
//! last decision back, and recognises terminal states. [`Solutions`] walks
//! the decision tree of such a problem depth first and hands out every
//! terminal state that satisfies the problem's solution predicate, one at
//! a time.

use vstd::prelude::*;

pub mod journey;
pub mod n_queens;
pub mod position;
pub mod sudoku;
pub mod text;

verus! {

/// A problem to be tackled with backtracking, used by the [`Solutions`]
/// iterator.
///
/// The contract is stated over the problem's mathematical model, its
/// [`View`]: every mutating operation says exactly which model the new
/// state has, and the two laws oblige an implementation to keep the
/// operations consistent with one another — playing a decision and taking
/// it back is the identity on reachable states, and the tree of decisions
/// is finite.
pub trait Problem: Sized + View {
    /// Describes a decision made in a problem state leading to a new
    /// candidate for a solution. E.g. which field to jump to in a knight's
    /// journey or which digit to write into a cell of a sudoku puzzle.
    type Posibility: Copy;

    /// Final state we are interested in. E.g. the order of fields visited
    /// in a knight's journey, or the final distribution of digits over the
    /// cells of a sudoku puzzle.
    type Solution: View;

    /// Well-formed problem states, as models.
    spec fn inv(m: Self::V) -> bool;

    /// The model `m` is one that the decisions of `history`, played in
    /// order, can have led to.
    spec fn hist_inv(m: Self::V, history: Seq<Self::Posibility>) -> bool;

    /// The decision can be played in this state without breaking it.
    spec fn may_play(m: Self::V, decision: Self::Posibility) -> bool;

    /// The decisions offered in this state, in enumeration order.
    spec fn spec_possibilities(m: Self::V, history: Seq<Self::Posibility>) -> Seq<
        Self::Posibility,
    >;

    /// The model after playing `decision`.
    spec fn spec_what_if(m: Self::V, decision: Self::Posibility) -> Self::V;

    /// The model after taking `last` back, `history` being the decisions
    /// that remain.
    spec fn spec_undo(m: Self::V, last: Self::Posibility, history: Seq<Self::Posibility>) -> Self::V;

    /// The solution this state yields, if it is terminal.
    spec fn spec_solution(m: Self::V, history: Seq<Self::Posibility>) -> Option<
        <Self::Solution as View>::V,
    >;

    /// No decisions are offered once `history` has this many entries.
    spec fn depth_bound(m: Self::V) -> nat;

    /// Never more decisions offered at once than this.
    spec fn branch_bound(m: Self::V) -> nat;

    /// Extends `possibilities` with the decisions to be considered next.
    /// Implementations may assume that `possibilities` is empty, as it is
    /// when invoked through the [`Solutions`] iterator.
    fn extend_possibilities(
        &self,
        possibilities: &mut Vec<Self::Posibility>,
        history: &[Self::Posibility],
    )
        requires
            Self::inv(self@),
            Self::hist_inv(self@, history@),
            old(possibilities)@.len() == 0,
        ensures
            final(possibilities)@ == Self::spec_possibilities(self@, history@),
    ;

    /// Undo the last decision made. When invoked by the [`Solutions`]
    /// iterator, `last` is guaranteed to be the most recent decision played
    /// with [`Problem::what_if`], and `history` holds the decisions that
    /// remain before it.
    fn undo(&mut self, last: &Self::Posibility, history: &[Self::Posibility])
        requires
            Self::inv(old(self)@),
            Self::hist_inv(old(self)@, history@.push(*last)),
        ensures
            final(self)@ == Self::spec_undo(old(self)@, *last, history@),
    ;

    /// Update internal caches to reflect a scenario in which we would
    /// decide to execute the given possibility.
    fn what_if(&mut self, decision: Self::Posibility)
        requires
            Self::inv(old(self)@),
            Self::may_play(old(self)@, decision),
        ensures
            final(self)@ == Self::spec_what_if(old(self)@, decision),
    ;

    /// Check if the candidate state we are looking at is a solution to our
    /// problem. If so, extract the information we are interested in.
    fn is_solution(&self, history: &[Self::Posibility]) -> (solution: Option<Self::Solution>)
        requires
            Self::inv(self@),
            Self::hist_inv(self@, history@),
        ensures
            solution is Some <==> Self::spec_solution(self@, history@) is Some,
            solution matches Some(found) ==> Self::spec_solution(self@, history@) == Some(found@),
    ;

    /// Playing a decision that was offered preserves well-formedness and
    /// history consistency, keeps the bounds, and can be taken back: undo
    /// after play is the identity on reachable states.
    proof fn law_step(m: Self::V, history: Seq<Self::Posibility>, decision: Self::Posibility)
        requires
            Self::inv(m),
            Self::hist_inv(m, history),
            Self::spec_possibilities(m, history).contains(decision),
        ensures
            Self::may_play(m, decision),
            Self::inv(Self::spec_what_if(m, decision)),
            Self::hist_inv(Self::spec_what_if(m, decision), history.push(decision)),
            Self::spec_undo(Self::spec_what_if(m, decision), decision, history) == m,
            Self::depth_bound(Self::spec_what_if(m, decision)) == Self::depth_bound(m),
            Self::branch_bound(Self::spec_what_if(m, decision)) == Self::branch_bound(m),
    ;

    /// The decision tree is finitely branching and of bounded depth.
    proof fn law_finite(m: Self::V, history: Seq<Self::Posibility>)
        requires
            Self::inv(m),
            Self::hist_inv(m, history),
        ensures
            Self::spec_possibilities(m, history).len() <= Self::branch_bound(m),
            history.len() >= Self::depth_bound(m) ==> Self::spec_possibilities(m, history).len()
                == 0,
    ;
}

/// The model that playing out `history` from `init` produces.
pub open spec fn replay<P: Problem>(init: P::V, history: Seq<P::Posibility>) -> P::V
    decreases history.len(),
{
    if history.len() == 0 {
        init
    } else {
        P::spec_what_if(replay::<P>(init, history.drop_last()), history.last())
    }
}

/// Every decision of `history` was among the possibilities offered at the
/// state it was played in.
pub open spec fn valid_path<P: Problem>(init: P::V, history: Seq<P::Posibility>) -> bool {
    forall|i: int|
        0 <= i < history.len() ==> P::spec_possibilities(
            #[trigger] replay::<P>(init, history.take(i)),
            history.take(i),
        ).contains(history[i])
}

/// Taking a prefix of a prefix is taking the shorter prefix.
proof fn lemma_take_take<T>(s: Seq<T>, i: int, j: int)
    requires
        0 <= i <= j <= s.len(),
    ensures
        s.take(j).take(i) == s.take(i),
{
    assert(s.take(j).take(i) =~= s.take(i));
}

/// A prefix of a valid path is a valid path.
proof fn lemma_valid_path_prefix<P: Problem>(init: P::V, history: Seq<P::Posibility>, n: int)
    requires
        valid_path::<P>(init, history),
        0 <= n <= history.len(),
    ensures
        valid_path::<P>(init, history.take(n)),
{
    let prefix = history.take(n);
    assert forall|i: int| 0 <= i < prefix.len() implies P::spec_possibilities(
        #[trigger] replay::<P>(init, prefix.take(i)),
        prefix.take(i),
    ).contains(prefix[i]) by {
        lemma_take_take(history, i, n);
        assert(prefix.take(i) == history.take(i));
        assert(prefix[i] == history[i]);
    }
}

/// The state a valid path leads to is well formed, consistent with the
/// path, and keeps the initial state's bounds.
pub proof fn lemma_path_state<P: Problem>(init: P::V, history: Seq<P::Posibility>)
    requires
        P::inv(init),
        P::hist_inv(init, Seq::empty()),
        valid_path::<P>(init, history),
    ensures
        P::inv(replay::<P>(init, history)),
        P::hist_inv(replay::<P>(init, history), history),
        P::depth_bound(replay::<P>(init, history)) == P::depth_bound(init),
        P::branch_bound(replay::<P>(init, history)) == P::branch_bound(init),
    decreases history.len(),
{
    if history.len() == 0 {
        assert(history =~= Seq::<P::Posibility>::empty());
    } else {
        let shorter = history.drop_last();
        assert(shorter =~= history.take(history.len() - 1));
        lemma_valid_path_prefix::<P>(init, history, history.len() - 1);
        lemma_path_state::<P>(init, shorter);
        assert(P::spec_possibilities(
            replay::<P>(init, history.take(history.len() - 1)),
            history.take(history.len() - 1),
        ).contains(history[history.len() - 1]));
        P::law_step(replay::<P>(init, shorter), shorter, history.last());
        assert(shorter.push(history.last()) =~= history);
    }
}

/// A pending candidate of the frontier, as specifications see it: the
/// length of the decision path to its parent state, and the decision
/// itself, which would be decision number `depth + 1` of its own path.
pub open spec fn candidate_ok<P: Problem>(
    init: P::V,
    history: Seq<P::Posibility>,
    candidate: (int, P::Posibility),
) -> bool {
    &&& 0 <= candidate.0 <= history.len()
    &&& candidate.0 < P::depth_bound(init)
    &&& P::spec_possibilities(
        replay::<P>(init, history.take(candidate.0)),
        history.take(candidate.0),
    ).contains(candidate.1)
}

/// The frontier invariant: every pending candidate was offered at the
/// state its prefix of `history` leads to, and the depths never decrease
/// from the bottom of the stack to its top.
pub open spec fn frontier_ok<P: Problem>(
    init: P::V,
    frontier: Seq<(int, P::Posibility)>,
    history: Seq<P::Posibility>,
) -> bool {
    &&& forall|i: int|
        0 <= i < frontier.len() ==> candidate_ok::<P>(init, history, #[trigger] frontier[i])
    &&& forall|i: int, j: int|
        0 <= i <= j < frontier.len() ==> (#[trigger] frontier[i]).0 <= (#[trigger] frontier[j]).0
}

/// Everything the search relies on: a well-formed initial state, a decision
/// path of offered decisions, and a well-formed frontier.
pub open spec fn search_ok<P: Problem>(
    init: P::V,
    frontier: Seq<(int, P::Posibility)>,
    history: Seq<P::Posibility>,
) -> bool {
    &&& P::inv(init)
    &&& P::hist_inv(init, Seq::empty())
    &&& valid_path::<P>(init, history)
    &&& frontier_ok::<P>(init, frontier, history)
}

/// Upper bound on the number of search rounds a subtree takes: its root,
/// plus at most `branching` subtrees with one level less room.
pub open spec fn tree_bound(branching: nat, room: nat) -> nat
    decreases room,
{
    if room == 0 {
        0
    } else {
        1 + branching * tree_bound(branching, (room - 1) as nat)
    }
}

/// How many more levels of decisions can follow a candidate at `depth`.
pub open spec fn room_of(depth_bound: nat, depth: int) -> nat {
    if 0 <= depth < depth_bound {
        (depth_bound - depth) as nat
    } else {
        0
    }
}

/// Upper bound on the number of search rounds the whole frontier takes.
pub open spec fn frontier_measure<P: Problem>(
    init: P::V,
    frontier: Seq<(int, P::Posibility)>,
) -> nat
    decreases frontier.len(),
{
    if frontier.len() == 0 {
        0
    } else {
        frontier_measure::<P>(init, frontier.drop_last()) + tree_bound(
            P::branch_bound(init),
            room_of(P::depth_bound(init), frontier.last().0),
        )
    }
}

/// One round of the search: pop the top candidate, reconcile the state to
/// the candidate's parent path, play the candidate's decision, and either
/// yield the solution found there or push the children of the new state.
pub open spec fn search_step<P: Problem>(
    init: P::V,
    frontier: Seq<(int, P::Posibility)>,
    history: Seq<P::Posibility>,
) -> (Seq<(int, P::Posibility)>, Seq<P::Posibility>, Option<<P::Solution as View>::V>)
    recommends
        frontier.len() > 0,
{
    let depth = frontier.last().0;
    let popped = frontier.drop_last();
    let played = history.take(depth).push(frontier.last().1);
    let state = replay::<P>(init, played);
    match P::spec_solution(state, played) {
        Some(found) => (popped, played, Some(found)),
        None => (
            popped + P::spec_possibilities(state, played).map_values(
                |next: P::Posibility| (played.len() as int, next),
            ),
            played,
            None,
        ),
    }
}

/// The search outcome: rounds of [`search_step`] until one yields a
/// solution or the frontier is exhausted. What [`Solutions::next`] returns
/// and leaves behind is exactly this function of what it started from.
pub open spec fn search<P: Problem>(
    init: P::V,
    frontier: Seq<(int, P::Posibility)>,
    history: Seq<P::Posibility>,
) -> (Seq<(int, P::Posibility)>, Seq<P::Posibility>, Option<<P::Solution as View>::V>)
    decreases frontier_measure::<P>(init, frontier),
    when search_ok::<P>(init, frontier, history)
    via search_decreases::<P>
{
    if frontier.len() == 0 {
        (frontier, history, None)
    } else {
        let (frontier2, history2, outcome) = search_step::<P>(init, frontier, history);
        if outcome is Some {
            (frontier2, history2, outcome)
        } else {
            search::<P>(init, frontier2, history2)
        }
    }
}

#[via_fn]
proof fn search_decreases<P: Problem>(
    init: P::V,
    frontier: Seq<(int, P::Posibility)>,
    history: Seq<P::Posibility>,
) {
    if frontier.len() > 0 {
        lemma_search_step::<P>(init, frontier, history);
    }
}

/// Concatenating frontiers adds their measures.
proof fn lemma_measure_concat<P: Problem>(
    init: P::V,
    left: Seq<(int, P::Posibility)>,
    right: Seq<(int, P::Posibility)>,
)
    ensures
        frontier_measure::<P>(init, left + right) == frontier_measure::<P>(init, left)
            + frontier_measure::<P>(init, right),
    decreases right.len(),
{
    if right.len() == 0 {
        assert(left + right =~= left);
    } else {
        assert((left + right).drop_last() =~= left + right.drop_last());
        assert((left + right).last() == right.last());
        lemma_measure_concat::<P>(init, left, right.drop_last());
    }
}

/// The measure of a frontier of candidates that share one depth.
proof fn lemma_measure_same_depth<P: Problem>(
    init: P::V,
    candidates: Seq<(int, P::Posibility)>,
    depth: int,
)
    requires
        forall|i: int| 0 <= i < candidates.len() ==> (#[trigger] candidates[i]).0 == depth,
    ensures
        frontier_measure::<P>(init, candidates) == candidates.len() * tree_bound(
            P::branch_bound(init),
            room_of(P::depth_bound(init), depth),
        ),
    decreases candidates.len(),
{
    if candidates.len() > 0 {
        let rest = candidates.drop_last();
        assert forall|i: int| 0 <= i < rest.len() implies (#[trigger] rest[i]).0 == depth by {
            assert(rest[i] == candidates[i]);
        }
        lemma_measure_same_depth::<P>(init, rest, depth);
        assert(candidates.last() == candidates[candidates.len() - 1]);
        let per_candidate = tree_bound(P::branch_bound(init), room_of(P::depth_bound(init), depth));
        assert(rest.len() * per_candidate + per_candidate == candidates.len() * per_candidate)
            by (nonlinear_arith)
            requires
                rest.len() + 1 == candidates.len(),
        ;
    }
}

/// One search round keeps the search invariant and strictly shrinks the
/// frontier measure.
pub proof fn lemma_search_step<P: Problem>(
    init: P::V,
    frontier: Seq<(int, P::Posibility)>,
    history: Seq<P::Posibility>,
)
    requires
        search_ok::<P>(init, frontier, history),
        frontier.len() > 0,
    ensures
        ({
            let (frontier2, history2, outcome) = search_step::<P>(init, frontier, history);
            &&& search_ok::<P>(init, frontier2, history2)
            &&& frontier_measure::<P>(init, frontier2) < frontier_measure::<P>(init, frontier)
            &&& history2 == history.take(frontier.last().0).push(frontier.last().1)
            &&& (outcome is Some <==> P::spec_solution(replay::<P>(init, history2), history2)
                is Some)
            &&& outcome is Some ==> outcome == P::spec_solution(
                replay::<P>(init, history2),
                history2,
            )
        }),
{
    let depth = frontier.last().0;
    let decision = frontier.last().1;
    let popped = frontier.drop_last();
    let parent = history.take(depth);
    let played = parent.push(decision);
    let branching = P::branch_bound(init);
    let levels = P::depth_bound(init);

    assert(frontier.last() == frontier[frontier.len() - 1]);
    assert(candidate_ok::<P>(init, history, frontier[frontier.len() - 1]));

    // The played path is valid: its strict prefixes are prefixes of
    // `history`, and its last decision was offered at the parent state.
    lemma_valid_path_prefix::<P>(init, history, depth);
    assert forall|i: int|
        0 <= i < played.len() implies P::spec_possibilities(
        #[trigger] replay::<P>(init, played.take(i)),
        played.take(i),
    ).contains(played[i]) by {
        if i < depth {
            assert(played.take(i) =~= history.take(i));
        } else {
            assert(played.take(i) =~= parent);
        }
    }
    lemma_path_state::<P>(init, played);
    let state = replay::<P>(init, played);
    P::law_finite(state, played);

    // Candidates below the popped one keep their meaning: their depths stay
    // within the new path, whose prefixes up to `depth` are unchanged.
    assert forall|i: int| 0 <= i < popped.len() implies candidate_ok::<P>(
        init,
        played,
        #[trigger] popped[i],
    ) by {
        assert(popped[i] == frontier[i]);
        assert(candidate_ok::<P>(init, history, frontier[i]));
        assert(frontier[i].0 <= depth);
        assert(played.take(frontier[i].0) =~= history.take(frontier[i].0));
    }

    // The measure of the whole frontier is the measure of the rest plus the
    // popped candidate's subtree bound, which is at least one round.
    assert(frontier_measure::<P>(init, frontier) == frontier_measure::<P>(init, popped)
        + tree_bound(branching, room_of(levels, depth)));
    assert(room_of(levels, depth) >= 1);

    match P::spec_solution(state, played) {
        Some(_) => {},
        None => {
            let children = P::spec_possibilities(state, played).map_values(
                |next: P::Posibility| (played.len() as int, next),
            );
            assert forall|i: int| 0 <= i < children.len() implies candidate_ok::<P>(
                init,
                played,
                #[trigger] children[i],
            ) by {
                assert(children[i].1 == P::spec_possibilities(state, played)[i]);
                assert(P::spec_possibilities(state, played).contains(children[i].1));
                assert(played.len() < levels);
                assert(played.take(played.len() as int) =~= played);
            }
            let grown = popped + children;
            assert forall|i: int, j: int|
                0 <= i <= j < grown.len() implies (#[trigger] grown[i]).0 <= (
            #[trigger] grown[j]).0 by {
                if i < popped.len() {
                    assert(grown[i] == frontier[i]);
                    assert(frontier[i].0 <= frontier[frontier.len() - 1].0);
                }
                if j < popped.len() {
                    assert(grown[j] == frontier[j]);
                    assert(frontier[j].0 <= frontier[frontier.len() - 1].0);
                }
            }
            lemma_measure_concat::<P>(init, popped, children);
            lemma_measure_same_depth::<P>(init, children, played.len() as int);
            let small = tree_bound(branching, room_of(levels, played.len() as int));
            assert(children.len() * small <= branching * small) by (nonlinear_arith)
                requires
                    children.len() <= branching,
                    small >= 0,
            ;
            if children.len() > 0 {
                assert(played.len() < levels);
                assert(room_of(levels, depth) == room_of(levels, played.len() as int) + 1);
                assert(tree_bound(branching, room_of(levels, depth)) == 1 + branching * small);
            }
        },
    }
}

/// What a search outcome means: the invariant still holds afterwards, a
/// yielded solution is exactly the one its final decision path produces,
/// and the search only ever comes back empty handed with the frontier
/// exhausted.
pub proof fn lemma_search_outcome<P: Problem>(
    init: P::V,
    frontier: Seq<(int, P::Posibility)>,
    history: Seq<P::Posibility>,
)
    requires
        search_ok::<P>(init, frontier, history),
    ensures
        ({
            let (frontier2, history2, outcome) = search::<P>(init, frontier, history);
            &&& search_ok::<P>(init, frontier2, history2)
            &&& (outcome is Some ==> outcome == P::spec_solution(
                replay::<P>(init, history2),
                history2,
            ))
            &&& (outcome is None ==> frontier2.len() == 0)
        }),
    decreases frontier_measure::<P>(init, frontier),
{
    if frontier.len() > 0 {
        lemma_search_step::<P>(init, frontier, history);
        let (frontier2, history2, outcome) = search_step::<P>(init, frontier, history);
        if outcome is None {
            lemma_search_outcome::<P>(init, frontier2, history2);
        }
    }
}

/// The search makes progress: whenever the frontier still holds a
/// candidate, one search round strictly shrinks the frontier measure. A
/// chain of [`Solutions::next`] calls therefore always reaches the
/// exhausted frontier after finitely many solutions.
pub proof fn lemma_search_shrinks<P: Problem>(
    init: P::V,
    frontier: Seq<(int, P::Posibility)>,
    history: Seq<P::Posibility>,
)
    requires
        search_ok::<P>(init, frontier, history),
    ensures
        frontier_measure::<P>(init, search::<P>(init, frontier, history).0) <= frontier_measure::<
            P,
        >(init, frontier),
        frontier.len() > 0 ==> frontier_measure::<P>(init, search::<P>(init, frontier, history).0)
            < frontier_measure::<P>(init, frontier),
    decreases frontier_measure::<P>(init, frontier),
{
    if frontier.len() > 0 {
        lemma_search_step::<P>(init, frontier, history);
        let (frontier2, history2, outcome) = search_step::<P>(init, frontier, history);
        if outcome is None {
            lemma_search_shrinks::<P>(init, frontier2, history2);
        }
    }
}

/// A pending decision of the frontier. `depth` counts the decisions made
/// before it on its path, so we can undo the appropriate number of turns
/// when we roll back to an earlier state.
struct Candidate<Pos> {
    depth: usize,
    possibility: Pos,
}

/// An iterator performing backtracking to find solutions to a problem.
///
/// It owns the one live problem instance, walks a stack of pending
/// candidates depth first, and before playing each candidate reconciles
/// the instance back to the candidate's parent state by undoing decisions.
pub struct Solutions<P: Problem> {
    decisions: Vec<P::Posibility>,
    open: Vec<Candidate<P::Posibility>>,
    /// Keeps track of the decisions which yielded the current problem
    /// state, starting from the initial state.
    history: Vec<P::Posibility>,
    current: P,
    init: Ghost<P::V>,
}

impl<P: Problem> Solutions<P> {
    /// The model of the problem instance the search was constructed over.
    pub closed spec fn initial(&self) -> P::V {
        self.init@
    }

    /// The decision path from the initial state to the current state.
    pub closed spec fn hist(&self) -> Seq<P::Posibility> {
        self.history@
    }

    /// The pending candidates, bottom of the stack first: each is the
    /// length of its parent path paired with its decision.
    pub closed spec fn frontier(&self) -> Seq<(int, P::Posibility)> {
        self.open@.map_values(
            |candidate: Candidate<P::Posibility>| (candidate.depth as int, candidate.possibility),
        )
    }

    /// The iterator's invariant: the frontier and the path are sound, and
    /// the live instance is exactly the state the path leads to.
    pub closed spec fn wf(&self) -> bool {
        &&& search_ok::<P>(self.initial(), self.frontier(), self.hist())
        &&& self.current@ == replay::<P>(self.initial(), self.hist())
    }

    pub fn new(init: P) -> (solutions: Self)
        requires
            P::inv(init@),
            P::hist_inv(init@, Seq::empty()),
        ensures
            solutions.wf(),
            solutions.initial() == init@,
            solutions.hist() == Seq::<P::Posibility>::empty(),
            solutions.frontier() == P::spec_possibilities(init@, Seq::empty()).map_values(
                |next: P::Posibility| (0int, next),
            ),
    {
        let ghost initial = init@;
        let history: Vec<P::Posibility> = Vec::new();
        let mut possible_moves: Vec<P::Posibility> = Vec::new();
        proof {
            assert(history@ =~= Seq::<P::Posibility>::empty());
        }
        init.extend_possibilities(&mut possible_moves, history.as_slice());
        let mut open: Vec<Candidate<P::Posibility>> = Vec::new();
        let mut index: usize = 0;
        while index < possible_moves.len()
            invariant
                index <= possible_moves@.len(),
                open@.len() == index,
                forall|i: int|
                    0 <= i < index ==> #[trigger] open@[i] == (Candidate {
                        depth: 0usize,
                        possibility: possible_moves@[i],
                    }),
            decreases possible_moves@.len() - index,
        {
            open.push(Candidate { depth: 0, possibility: possible_moves[index] });
            index += 1;
        }
        let solutions = Solutions {
            decisions: possible_moves,
            open,
            history,
            current: init,
            init: Ghost(initial),
        };
        proof {
            let seeds = P::spec_possibilities(initial, Seq::empty());
            assert(solutions.hist() =~= Seq::<P::Posibility>::empty());
            assert(solutions.frontier() =~= seeds.map_values(|next: P::Posibility| (0int, next)));
            if seeds.len() > 0 {
                P::law_finite(initial, Seq::empty());
            }
            assert forall|i: int| 0 <= i < solutions.frontier().len() implies candidate_ok::<P>(
                initial,
                solutions.hist(),
                #[trigger] solutions.frontier()[i],
            ) by {
                assert(solutions.frontier()[i] == (0int, seeds[i]));
                assert(solutions.hist().take(0) =~= Seq::<P::Posibility>::empty());
            }
        }
        solutions
    }

    /// Advances the depth first walk until it reaches the next solution,
    /// which it hands out, or until the frontier is exhausted. What it
    /// returns, and the frontier and path it leaves behind, are exactly
    /// what [`search`] says of the frontier and path it started from.
    #[verifier::loop_isolation(false)]
    pub fn next(&mut self) -> (solution: Option<P::Solution>)
        requires
            old(self).wf(),
        ensures
            final(self).wf(),
            final(self).initial() == old(self).initial(),
            ({
                let (frontier2, history2, outcome) = search::<P>(
                    old(self).initial(),
                    old(self).frontier(),
                    old(self).hist(),
                );
                &&& final(self).frontier() == frontier2
                &&& final(self).hist() == history2
                &&& (solution is Some <==> outcome is Some)
                &&& (solution matches Some(found) ==> outcome == Some(found@))
            }),
            frontier_measure::<P>(old(self).initial(), final(self).frontier())
                <= frontier_measure::<P>(old(self).initial(), old(self).frontier()),
            old(self).frontier().len() > 0 ==> frontier_measure::<P>(
                old(self).initial(),
                final(self).frontier(),
            ) < frontier_measure::<P>(old(self).initial(), old(self).frontier()),
    {
        let ghost initial = old(self).initial();
        proof {
            lemma_search_shrinks::<P>(initial, self.frontier(), self.hist());
        }
        loop
            invariant
                self.wf(),
                self.initial() == initial,
                search::<P>(initial, old(self).frontier(), old(self).hist()) == search::<P>(
                    initial,
                    self.frontier(),
                    self.hist(),
                ),
            decreases frontier_measure::<P>(initial, self.frontier()),
        {
            let ghost pre_frontier = self.frontier();
            let ghost pre_history = self.hist();
            let candidate = match self.open.pop() {
                Some(candidate) => candidate,
                None => {
                    proof {
                        assert(pre_frontier.len() == 0);
                        assert(self.frontier() =~= pre_frontier);
                    }
                    return None;
                },
            };
            let depth = candidate.depth;
            let mov = candidate.possibility;
            let ghost popped = pre_frontier.drop_last();
            let ghost parent = pre_history.take(depth as int);
            let ghost played = parent.push(mov);
            proof {
                assert(pre_frontier.last() == (depth as int, mov));
                assert(self.frontier() =~= popped);
                assert(pre_frontier[pre_frontier.len() - 1] == pre_frontier.last());
                assert(candidate_ok::<P>(initial, pre_history, pre_frontier.last()));
                lemma_search_step::<P>(initial, pre_frontier, pre_history);
            }
            let ghost open_after_pop = self.open@;
            // Unroll moves until our current state is identical with the
            // one we had once we put that move into the open list. We want
            // to be one move behind, so we play the move afterwards to get
            // the desired state.
            while self.history.len() > depth
                invariant
                    depth <= self.history@.len(),
                    self.history@.len() <= pre_history.len(),
                    self.history@ == pre_history.take(self.history@.len() as int),
                    self.current@ == replay::<P>(initial, self.history@),
                    self.init@ == initial,
                    self.open@ == open_after_pop,
                    self.frontier() == popped,
                decreases self.history@.len(),
            {
                let ghost before = self.history@;
                proof {
                    lemma_valid_path_prefix::<P>(initial, pre_history, before.len() as int);
                    lemma_path_state::<P>(initial, before);
                }
                let last = self.history.pop().unwrap();
                proof {
                    let shorter = self.history@;
                    assert(shorter =~= before.drop_last());
                    assert(shorter =~= pre_history.take(shorter.len() as int));
                    assert(before =~= shorter.push(last));
                    lemma_valid_path_prefix::<P>(initial, pre_history, shorter.len() as int);
                    lemma_path_state::<P>(initial, shorter);
                }
                self.current.undo(&last, self.history.as_slice());
                proof {
                    let shorter = self.history@;
                    assert(P::spec_possibilities(
                        replay::<P>(initial, pre_history.take(shorter.len() as int)),
                        pre_history.take(shorter.len() as int),
                    ).contains(pre_history[shorter.len() as int]));
                    assert(shorter =~= pre_history.take(shorter.len() as int));
                    assert(last == before.last());
                    assert(before[before.len() - 1] == pre_history[before.len() - 1]);
                    P::law_step(replay::<P>(initial, shorter), shorter, last);
                    assert(replay::<P>(initial, before) == P::spec_what_if(
                        replay::<P>(initial, shorter),
                        last,
                    ));
                    assert(self.current@ == replay::<P>(initial, shorter));
                }
            }
            proof {
                assert(self.history@ =~= parent);
                lemma_valid_path_prefix::<P>(initial, pre_history, depth as int);
                lemma_path_state::<P>(initial, parent);
                P::law_step(replay::<P>(initial, parent), parent, mov);
            }
            // We advance one move deeper into the search tree.
            self.current.what_if(mov);
            self.history.push(mov);
            proof {
                assert(self.history@ =~= played);
                assert(played.drop_last() =~= parent);
                assert(self.current@ == replay::<P>(initial, played));
                lemma_path_state::<P>(initial, played);
            }
            // Emit solution
            let maybe = self.current.is_solution(self.history.as_slice());
            match maybe {
                Some(found) => {
                    proof {
                        assert(search::<P>(initial, pre_frontier, pre_history) == (
                            popped,
                            played,
                            P::spec_solution(replay::<P>(initial, played), played),
                        ));
                        assert(self.frontier() =~= popped);
                    }
                    return Some(found);
                },
                None => {},
            }
            // Extend search tree
            self.decisions.clear();
            self.current.extend_possibilities(&mut self.decisions, self.history.as_slice());
            let ghost children = P::spec_possibilities(replay::<P>(initial, played), played)
                .map_values(|next: P::Posibility| (played.len() as int, next));
            let depth_now = self.history.len();
            proof {
                assert(children.take(0) =~= Seq::<(int, P::Posibility)>::empty());
                assert(popped + children.take(0) =~= popped);
            }
            let mut index: usize = 0;
            while index < self.decisions.len()
                invariant
                    index <= self.decisions@.len(),
                    self.frontier() == popped + children.take(index as int),
                    self.decisions@ == P::spec_possibilities(replay::<P>(initial, played), played),
                    self.history@ == played,
                    self.current@ == replay::<P>(initial, played),
                    self.init@ == initial,
                    depth_now == played.len(),
                decreases self.decisions@.len() - index,
            {
                let ghost frontier_before = self.frontier();
                self.open.push(Candidate { depth: depth_now, possibility: self.decisions[index] });
                proof {
                    assert(self.frontier() =~= frontier_before.push(
                        (depth_now as int, self.decisions@[index as int]),
                    ));
                    assert(children[index as int] == (
                        played.len() as int,
                        self.decisions@[index as int],
                    ));
                    assert(popped + children.take(index as int + 1) =~= (popped + children.take(
                        index as int,
                    )).push(children[index as int]));
                }
                index += 1;
            }
            proof {
                assert(children.take(children.len() as int) =~= children);
                assert(self.frontier() == popped + children);
                assert(search::<P>(initial, pre_frontier, pre_history) == search::<P>(
                    initial,
                    popped + children,
                    played,
                ));
            }
        }
    }
}

} // verus!
