//! The visit of one node, and the policies that order the search.
//!
//! A search keeps a frontier of boxes, the best objective value found so far
//! (the incumbent, zero at the start) and a count of the relaxations it asked
//! for. It takes the box at the head of the frontier, asks the oracle for the
//! relaxation of the problem in that box, and visits the node with the
//! answer. The policies differ in where the children of a node enter the
//! frontier. The search ends when the frontier is empty, or when the count
//! has reached `u32::MAX`.

use crate::problem::{lemma_split_children, view_of, Bounds, BoundsView, ProblemIR, ProblemView};
use crate::solver::variable::{
    choice_of, eligible, feasible, is_milp_solution, lemma_selected_unique, selected,
    VariableSearch,
};
use crate::utils::lemma_floor_ceil;
use std::collections::VecDeque;
use std::marker::PhantomData;
use vstd::prelude::*;

verus! {

/// What an oracle answers, with the relaxed values as a sequence: `None`
/// where the relaxation has no solution, else its optimal objective value
/// and an optimal assignment.
pub open spec fn answer_view(answer: Option<(i64, Vec<i64>)>) -> Option<(i64, Seq<i64>)> {
    match answer {
        Some((solution, values)) => Some((solution, values@)),
        None => None,
    }
}

/// What the visit of one node yields: the incumbent after it, and the
/// children to explore.
pub struct Outcome {
    pub lower: i64,
    pub left: Option<BoundsView>,
    pub right: Option<BoundsView>,
}

/// The visit of the node with box `bounds`, on the oracle's `answer`, with
/// the incumbent `lower`.
///
/// A node without an answer is discarded, and so is one whose answer does not
/// give a value to each variable. A node whose relaxed objective value does
/// not exceed the incumbent is discarded. A node whose relaxed values leave no
/// variable to branch on raises the incumbent to its objective value. Any
/// other node is split along the variable that policy `V` picks, at the
/// relaxed value of that variable.
pub open spec fn outcome<V: VariableSearch>(
    problem: ProblemView,
    bounds: BoundsView,
    answer: Option<(i64, Seq<i64>)>,
    lower: i64,
) -> Outcome {
    match answer {
        None => Outcome { lower, left: None, right: None },
        Some((solution, values)) => {
            if values.len() != problem.n || solution <= lower {
                Outcome { lower, left: None, right: None }
            } else if feasible(problem, values, bounds) {
                Outcome { lower: solution, left: None, right: None }
            } else {
                let i = choice_of::<V>(problem, values, bounds);
                Outcome {
                    lower,
                    left: bounds.split_left(i, values[i] as int),
                    right: bounds.split_right(i, values[i] as int),
                }
            }
        },
    }
}

/// The incumbent never falls, and the children of a valid box are valid boxes
/// over the same variables.
pub proof fn lemma_outcome<V: VariableSearch>(
    problem: ProblemView,
    bounds: BoundsView,
    answer: Option<(i64, Seq<i64>)>,
    lower: i64,
)
    requires
        bounds.wf(),
        bounds.dim() == problem.n,
    ensures
        outcome::<V>(problem, bounds, answer, lower).lower >= lower,
        match outcome::<V>(problem, bounds, answer, lower).left {
            Some(b) => b.wf() && b.dim() == problem.n,
            None => true,
        },
        match outcome::<V>(problem, bounds, answer, lower).right {
            Some(b) => b.wf() && b.dim() == problem.n,
            None => true,
        },
{
    match answer {
        None => {},
        Some((solution, values)) => {
            if values.len() != problem.n || solution <= lower {
            } else if feasible(problem, values, bounds) {
            } else {
                let rank = |j: int| V::rank(problem, values, bounds, j);
                let k = choose|k: int| eligible(problem, values, bounds, k);
                lemma_some_selected(rank, problem, values, bounds, k);
                let i = choice_of::<V>(problem, values, bounds);
                assert(selected(rank, problem, values, bounds, i));
                lemma_split_children(bounds, i, values[i]);
            }
        },
    }
}

/// Where some variable can be branched on, the choice of policy `V` is the
/// variable that the policy selects.
pub proof fn lemma_choice_exists<V: VariableSearch>(
    problem: ProblemView,
    values: Seq<i64>,
    bounds: BoundsView,
    k: int,
)
    requires
        eligible(problem, values, bounds, k),
    ensures
        selected(
            |j: int| V::rank(problem, values, bounds, j),
            problem,
            values,
            bounds,
            choice_of::<V>(problem, values, bounds),
        ),
{
    let rank = |j: int| V::rank(problem, values, bounds, j);
    lemma_some_selected(rank, problem, values, bounds, k);
}

/// Where some variable can be branched on, one of them is the choice.
proof fn lemma_some_selected(
    rank: spec_fn(int) -> int,
    problem: ProblemView,
    values: Seq<i64>,
    bounds: BoundsView,
    k: int,
)
    requires
        eligible(problem, values, bounds, k),
    ensures
        exists|i: int| #[trigger] selected(rank, problem, values, bounds, i),
{
    let best = best_below(rank, problem, values, bounds, problem.n as int);
    lemma_best_below(rank, problem, values, bounds, problem.n as int);
    assert(selected(rank, problem, values, bounds, best));
}

/// The choice among the variables below `upto`, or `-1` where none of them
/// can be branched on.
spec fn best_below(
    rank: spec_fn(int) -> int,
    problem: ProblemView,
    values: Seq<i64>,
    bounds: BoundsView,
    upto: int,
) -> int
    decreases upto,
{
    if upto <= 0 {
        -1
    } else {
        let before = best_below(rank, problem, values, bounds, upto - 1);
        if eligible(problem, values, bounds, upto - 1) && (before < 0 || rank(upto - 1) > rank(
            before,
        )) {
            upto - 1
        } else {
            before
        }
    }
}

/// `best_below` is the choice among the variables below `upto`.
proof fn lemma_best_below(
    rank: spec_fn(int) -> int,
    problem: ProblemView,
    values: Seq<i64>,
    bounds: BoundsView,
    upto: int,
)
    ensures
        ({
            let best = best_below(rank, problem, values, bounds, upto);
            &&& best < upto || best == -1
            &&& best >= 0 ==> eligible(problem, values, bounds, best)
            &&& best < 0 ==> forall|j: int| j < upto ==> !eligible(problem, values, bounds, j)
            &&& best >= 0 ==> forall|j: int|
                j < upto && #[trigger] eligible(problem, values, bounds, j) ==> rank(j) <= rank(
                    best,
                )
            &&& best >= 0 ==> forall|j: int|
                j < best && #[trigger] eligible(problem, values, bounds, j) ==> rank(j) < rank(
                    best,
                )
        }),
    decreases upto,
{
    if upto > 0 {
        lemma_best_below(rank, problem, values, bounds, upto - 1);
    }
}

/// Visits one node: applies the oracle's `answer` to the node with box
/// `bounds`. The incumbent `lower` is raised where the node improves on it,
/// and the children to explore are returned, lower child first.
pub fn visit<V: VariableSearch>(
    problem: &ProblemIR,
    bounds: &Bounds,
    answer: &Option<(i64, Vec<i64>)>,
    lower: &mut i64,
) -> (children: (Option<Bounds>, Option<Bounds>))
    requires
        problem@.is_integer.len() == problem@.n,
        problem@.constraints_per_variable.len() == problem@.n,
        bounds@.lb.len() == problem@.n,
        bounds@.ub.len() == problem@.n,
    ensures
        *final(lower) == outcome::<V>(problem@, bounds@, answer_view(*answer), *old(lower)).lower,
        view_of(children.0) == outcome::<V>(
            problem@,
            bounds@,
            answer_view(*answer),
            *old(lower),
        ).left,
        view_of(children.1) == outcome::<V>(
            problem@,
            bounds@,
            answer_view(*answer),
            *old(lower),
        ).right,
        *final(lower) >= *old(lower),
{
    match answer {
        None => (None, None),
        Some((solution, values)) => {
            if values.len() != problem.n || *solution <= *lower {
                return (None, None);
            }
            if is_milp_solution(problem, values.as_slice(), bounds) {
                *lower = *solution;
                return (None, None);
            }
            match V::pick(problem, values.as_slice(), bounds) {
                None => (None, None),
                Some(i) => {
                    proof {
                        let rank = |j: int| V::rank(problem@, values@, bounds@, j);
                        assert(selected(rank, problem@, values@, bounds@, i as int));
                        let c = choice_of::<V>(problem@, values@, bounds@);
                        assert(selected(rank, problem@, values@, bounds@, c));
                        lemma_selected_unique(rank, problem@, values@, bounds@, i as int, c);
                        lemma_floor_ceil(values@[i as int] as int);
                    }
                    bounds.split(i, values[i])
                },
            }
        },
    }
}

/// The sum of the widths of a box that may be absent; zero where it is.
pub open spec fn volume(child: Option<BoundsView>) -> int {
    match child {
        Some(b) => b.total_length(),
        None => 0,
    }
}

/// The boxes among `first` and `second` that exist, in this order.
pub open spec fn present(first: Option<BoundsView>, second: Option<BoundsView>) -> Seq<BoundsView> {
    (match first {
        Some(b) => seq![b],
        None => Seq::empty(),
    }) + (match second {
        Some(b) => seq![b],
        None => Seq::empty(),
    })
}

/// A policy that orders the two children of a node.
pub trait NodeSort {
    /// Whether the policy puts the upper child first.
    spec fn swaps(left: Option<BoundsView>, right: Option<BoundsView>) -> bool;

    /// The two children in the order in which they are to be visited.
    fn sort(children: (Option<Bounds>, Option<Bounds>)) -> (ordered: (
        Option<Bounds>,
        Option<Bounds>,
    ))
        requires
            children.0 matches Some(b) ==> b@.wf(),
            children.1 matches Some(b) ==> b@.wf(),
        ensures
            view_of(ordered.0) == (if Self::swaps(view_of(children.0), view_of(children.1)) {
                view_of(children.1)
            } else {
                view_of(children.0)
            }),
            view_of(ordered.1) == (if Self::swaps(view_of(children.0), view_of(children.1)) {
                view_of(children.0)
            } else {
                view_of(children.1)
            }),
    ;
}

/// Keeps the children as they are: lower child first.
pub struct NoSort;

impl NodeSort for NoSort {
    open spec fn swaps(left: Option<BoundsView>, right: Option<BoundsView>) -> bool {
        false
    }

    fn sort(children: (Option<Bounds>, Option<Bounds>)) -> (ordered: (
        Option<Bounds>,
        Option<Bounds>,
    )) {
        children
    }
}

/// Puts the child with the larger sum of widths first; an absent child counts
/// as zero, and children of equal sums stay as they are.
pub struct ByInterval;

impl NodeSort for ByInterval {
    open spec fn swaps(left: Option<BoundsView>, right: Option<BoundsView>) -> bool {
        volume(right) > volume(left)
    }

    fn sort(children: (Option<Bounds>, Option<Bounds>)) -> (ordered: (
        Option<Bounds>,
        Option<Bounds>,
    )) {
        let left_volume: u128 = match &children.0 {
            Some(b) => b.total_length(),
            None => 0,
        };
        let right_volume: u128 = match &children.1 {
            Some(b) => b.total_length(),
            None => 0,
        };
        if right_volume > left_volume {
            (children.1, children.0)
        } else {
            children
        }
    }
}

/// The state of a search.
pub struct SearchState {
    /// The boxes still to visit; the next one is at the head.
    pub frontier: Seq<BoundsView>,
    /// The incumbent.
    pub lower: i64,
    /// The number of relaxations asked for.
    pub calls: nat,
}

/// The state in which a search starts from the box `root`.
pub open spec fn start(root: BoundsView) -> SearchState {
    SearchState { frontier: seq![root], lower: 0, calls: 0 }
}

/// A search in this state has ended.
pub open spec fn finished(state: SearchState) -> bool {
    state.frontier.len() == 0 || state.calls >= u32::MAX
}

/// The state after the visit of the node at the head of the frontier, on the
/// oracle's `answer`. The children enter what is left of the frontier as
/// `arrange` says.
pub open spec fn step<V: VariableSearch>(
    arrange: spec_fn(Seq<BoundsView>, Option<BoundsView>, Option<BoundsView>) -> Seq<BoundsView>,
    problem: ProblemView,
    state: SearchState,
    answer: Option<(i64, Seq<i64>)>,
) -> SearchState {
    let visited = outcome::<V>(problem, state.frontier[0], answer, state.lower);
    SearchState {
        frontier: arrange(state.frontier.drop_first(), visited.left, visited.right),
        lower: visited.lower,
        calls: state.calls + 1,
    }
}

/// The state in which the search that starts in `state` ends, where the
/// oracle answers `oracle(b)` for the box `b`.
pub open spec fn search<V: VariableSearch>(
    arrange: spec_fn(Seq<BoundsView>, Option<BoundsView>, Option<BoundsView>) -> Seq<BoundsView>,
    problem: ProblemView,
    state: SearchState,
    oracle: spec_fn(BoundsView) -> Option<(i64, Seq<i64>)>,
) -> SearchState
    decreases u32::MAX - state.calls,
{
    if finished(state) {
        state
    } else {
        search::<V>(
            arrange,
            problem,
            step::<V>(arrange, problem, state, oracle(state.frontier[0])),
            oracle,
        )
    }
}

/// The oracle `oracle` answers as the function `answers` says: whatever it
/// returns for the box `b` is `answers(b)`.
pub open spec fn describes<O: Fn(&ProblemIR, &Bounds) -> Option<(i64, Vec<i64>)>>(
    oracle: O,
    problem: ProblemIR,
    answers: spec_fn(BoundsView) -> Option<(i64, Seq<i64>)>,
) -> bool {
    forall|b: Bounds, answer: Option<(i64, Vec<i64>)>| #[trigger]
        call_ensures(oracle, (&problem, &b), answer) ==> answer_view(answer) == answers(b@)
}

/// The oracle `oracle` can be asked for every valid box over the variables of
/// the problem.
pub open spec fn answers_all<O: Fn(&ProblemIR, &Bounds) -> Option<(i64, Vec<i64>)>>(
    oracle: O,
    problem: ProblemIR,
) -> bool {
    forall|b: Bounds|
        b@.wf() && b@.dim() == problem@.n ==> #[trigger] call_requires(oracle, (&problem, &b))
}

/// A policy that orders the search: it says where the children of a node
/// enter the frontier.
pub trait NodeSearch {
    /// The frontier after a node with the children `left` and `right` has
    /// been visited, where `rest` was the frontier behind the node.
    spec fn arrange(
        rest: Seq<BoundsView>,
        left: Option<BoundsView>,
        right: Option<BoundsView>,
    ) -> Seq<BoundsView>;

    /// Searches the box `bounds` for the best objective value of the
    /// problem, branching as policy `V` says, and returns the incumbent at
    /// the end with the number of relaxations that `oracle` was asked for.
    ///
    /// The incumbent starts at zero and never falls. Where the answers of the
    /// oracle depend on the box alone, the result is that of `search`.
    fn solve<V: VariableSearch, O: Fn(&ProblemIR, &Bounds) -> Option<(i64, Vec<i64>)>>(
        problem: &ProblemIR,
        bounds: Bounds,
        oracle: O,
    ) -> (result: (i64, u32))
        requires
            problem@.is_integer.len() == problem@.n,
            problem@.constraints_per_variable.len() == problem@.n,
            bounds@.wf(),
            bounds@.dim() == problem@.n,
            answers_all(oracle, *problem),
        ensures
            result.0 >= 0,
            result.1 >= 1,
            forall|answers: spec_fn(BoundsView) -> Option<(i64, Seq<i64>)>| #[trigger]
                describes(oracle, *problem, answers) ==> {
                    let end = search::<V>(
                        |rest: Seq<BoundsView>, left: Option<BoundsView>, right: Option<BoundsView>|
                            Self::arrange(rest, left, right),
                        problem@,
                        start(bounds@),
                        answers,
                    );
                    result.0 == end.lower && result.1 == end.calls
                },
    ;
}

/// The views of the boxes of a frontier.
pub open spec fn views(boxes: Seq<Bounds>) -> Seq<BoundsView> {
    boxes.map_values(|b: Bounds| b@)
}

/// Every box of the frontier is valid and over `n` variables.
pub open spec fn all_valid(boxes: Seq<Bounds>, n: nat) -> bool {
    forall|k: int| 0 <= k < boxes.len() ==> (#[trigger] boxes[k])@.wf() && boxes[k]@.dim() == n
}

/// Depth first: the children of a node are visited before any box that was
/// waiting, in the order that policy `T` gives them.
pub struct DFS<T: NodeSort> {
    _marker: PhantomData<T>,
}

impl<T: NodeSort> NodeSearch for DFS<T> {
    open spec fn arrange(
        rest: Seq<BoundsView>,
        left: Option<BoundsView>,
        right: Option<BoundsView>,
    ) -> Seq<BoundsView> {
        if T::swaps(left, right) {
            present(right, left) + rest
        } else {
            present(left, right) + rest
        }
    }

    fn solve<V: VariableSearch, O: Fn(&ProblemIR, &Bounds) -> Option<(i64, Vec<i64>)>>(
        problem: &ProblemIR,
        bounds: Bounds,
        oracle: O,
    ) -> (result: (i64, u32)) {
        let ghost arrange = |rest: Seq<BoundsView>, left: Option<BoundsView>, right: Option<BoundsView>|
            Self::arrange(rest, left, right);
        let ghost initial = start(bounds@);
        let mut lower: i64 = 0;
        let mut solver_calls: u32 = 0;
        let mut stack: VecDeque<Bounds> = VecDeque::new();
        stack.push_front(bounds);
        assert(views(stack@) =~= initial.frontier);

        while stack.len() > 0 && solver_calls < u32::MAX
            invariant
                problem@.is_integer.len() == problem@.n,
                problem@.constraints_per_variable.len() == problem@.n,
                answers_all(oracle, *problem),
                all_valid(stack@, problem@.n),
                forall|rest: Seq<BoundsView>, left: Option<BoundsView>, right: Option<BoundsView>|
                    #[trigger] arrange(rest, left, right) == Self::arrange(rest, left, right),
                lower >= 0,
                solver_calls >= 1 || stack@.len() > 0,
                forall|answers: spec_fn(BoundsView) -> Option<(i64, Seq<i64>)>| #[trigger]
                    describes(oracle, *problem, answers) ==> search::<V>(
                        arrange,
                        problem@,
                        SearchState {
                            frontier: views(stack@),
                            lower,
                            calls: solver_calls as nat,
                        },
                        answers,
                    ) == search::<V>(arrange, problem@, initial, answers),
            decreases u32::MAX - solver_calls,
        {
            let ghost before = SearchState {
                frontier: views(stack@),
                lower,
                calls: solver_calls as nat,
            };
            let current = stack.pop_front().unwrap();
            solver_calls += 1;
            let answer = oracle(problem, &current);
            let children = visit::<V>(problem, &current, &answer, &mut lower);
            proof {
                lemma_outcome::<V>(problem@, current@, answer_view(answer), before.lower);
            }
            let ghost rest = views(stack@);
            let ghost left = view_of(children.0);
            let ghost right = view_of(children.1);
            let (first, second) = T::sort(children);
            let ghost ordered = present(view_of(first), view_of(second));
            if let Some(b) = second {
                stack.push_front(b);
            }
            if let Some(b) = first {
                stack.push_front(b);
            }
            proof {
                let after = SearchState {
                    frontier: views(stack@),
                    lower,
                    calls: solver_calls as nat,
                };
                assert(rest =~= before.frontier.drop_first());
                assert(views(stack@) =~= ordered + rest);
                assert(after.frontier =~= arrange(rest, left, right));
                assert forall|answers: spec_fn(BoundsView) -> Option<(i64, Seq<i64>)>| #[trigger]
                    describes(oracle, *problem, answers) implies search::<V>(
                    arrange,
                    problem@,
                    after,
                    answers,
                ) == search::<V>(arrange, problem@, initial, answers) by {
                    assert(answers(current@) == answer_view(answer));
                    assert(after == step::<V>(arrange, problem@, before, answers(current@)));
                }
            }
        }
        (lower, solver_calls)
    }
}

/// Breadth first: the children of a node wait behind every box that was
/// waiting, lower child first.
pub struct BFS;

impl NodeSearch for BFS {
    open spec fn arrange(
        rest: Seq<BoundsView>,
        left: Option<BoundsView>,
        right: Option<BoundsView>,
    ) -> Seq<BoundsView> {
        rest + present(left, right)
    }

    fn solve<V: VariableSearch, O: Fn(&ProblemIR, &Bounds) -> Option<(i64, Vec<i64>)>>(
        problem: &ProblemIR,
        bounds: Bounds,
        oracle: O,
    ) -> (result: (i64, u32)) {
        let ghost arrange = |rest: Seq<BoundsView>, left: Option<BoundsView>, right: Option<BoundsView>|
            Self::arrange(rest, left, right);
        let ghost initial = start(bounds@);
        let mut lower: i64 = 0;
        let mut solver_calls: u32 = 0;
        let mut queue: VecDeque<Bounds> = VecDeque::new();
        queue.push_back(bounds);
        assert(views(queue@) =~= initial.frontier);

        while queue.len() > 0 && solver_calls < u32::MAX
            invariant
                problem@.is_integer.len() == problem@.n,
                problem@.constraints_per_variable.len() == problem@.n,
                answers_all(oracle, *problem),
                all_valid(queue@, problem@.n),
                forall|rest: Seq<BoundsView>, left: Option<BoundsView>, right: Option<BoundsView>|
                    #[trigger] arrange(rest, left, right) == Self::arrange(rest, left, right),
                lower >= 0,
                solver_calls >= 1 || queue@.len() > 0,
                forall|answers: spec_fn(BoundsView) -> Option<(i64, Seq<i64>)>| #[trigger]
                    describes(oracle, *problem, answers) ==> search::<V>(
                        arrange,
                        problem@,
                        SearchState {
                            frontier: views(queue@),
                            lower,
                            calls: solver_calls as nat,
                        },
                        answers,
                    ) == search::<V>(arrange, problem@, initial, answers),
            decreases u32::MAX - solver_calls,
        {
            let ghost before = SearchState {
                frontier: views(queue@),
                lower,
                calls: solver_calls as nat,
            };
            let current = queue.pop_front().unwrap();
            solver_calls += 1;
            let answer = oracle(problem, &current);
            let children = visit::<V>(problem, &current, &answer, &mut lower);
            proof {
                lemma_outcome::<V>(problem@, current@, answer_view(answer), before.lower);
            }
            let ghost rest = views(queue@);
            let ghost left = view_of(children.0);
            let ghost right = view_of(children.1);
            let (first, second) = children;
            if let Some(b) = first {
                queue.push_back(b);
            }
            if let Some(b) = second {
                queue.push_back(b);
            }
            proof {
                let after = SearchState {
                    frontier: views(queue@),
                    lower,
                    calls: solver_calls as nat,
                };
                assert(rest =~= before.frontier.drop_first());
                assert(views(queue@) =~= rest + present(left, right));
                assert(after.frontier =~= arrange(rest, left, right));
                assert forall|answers: spec_fn(BoundsView) -> Option<(i64, Seq<i64>)>| #[trigger]
                    describes(oracle, *problem, answers) implies search::<V>(
                    arrange,
                    problem@,
                    after,
                    answers,
                ) == search::<V>(arrange, problem@, initial, answers) by {
                    assert(answers(current@) == answer_view(answer));
                    assert(after == step::<V>(arrange, problem@, before, answers(current@)));
                }
            }
        }
        (lower, solver_calls)
    }
}

/// The incumbent never falls during a search, and the count of relaxations
/// never falls either.
pub proof fn lemma_search_monotone<V: VariableSearch>(
    arrange: spec_fn(Seq<BoundsView>, Option<BoundsView>, Option<BoundsView>) -> Seq<BoundsView>,
    problem: ProblemView,
    state: SearchState,
    oracle: spec_fn(BoundsView) -> Option<(i64, Seq<i64>)>,
)
    ensures
        !finished(state) ==> step::<V>(
            arrange,
            problem,
            state,
            oracle(state.frontier[0]),
        ).lower >= state.lower,
        search::<V>(arrange, problem, state, oracle).lower >= state.lower,
        search::<V>(arrange, problem, state, oracle).calls >= state.calls,
        finished(search::<V>(arrange, problem, state, oracle)),
    decreases u32::MAX - state.calls,
{
    if !finished(state) {
        let next = step::<V>(arrange, problem, state, oracle(state.frontier[0]));
        lemma_search_monotone::<V>(arrange, problem, next, oracle);
    }
}

/// A search is determined by the problem, the box it starts from, the two
/// policies and the answers of the oracle: two oracles that give the same
/// answer for every box lead to the same end.
pub proof fn lemma_search_deterministic<V: VariableSearch>(
    arrange: spec_fn(Seq<BoundsView>, Option<BoundsView>, Option<BoundsView>) -> Seq<BoundsView>,
    problem: ProblemView,
    state: SearchState,
    first: spec_fn(BoundsView) -> Option<(i64, Seq<i64>)>,
    second: spec_fn(BoundsView) -> Option<(i64, Seq<i64>)>,
)
    requires
        forall|b: BoundsView| #[trigger] first(b) == second(b),
    ensures
        search::<V>(arrange, problem, state, first) == search::<V>(arrange, problem, state, second),
    decreases u32::MAX - state.calls,
{
    if !finished(state) {
        let next = step::<V>(arrange, problem, state, first(state.frontier[0]));
        lemma_search_deterministic::<V>(arrange, problem, next, first, second);
    }
}

/// Where no variable is declared integer, the search of a box asks for one
/// relaxation and does not branch: it ends with the relaxed objective value
/// where that exceeds zero, and with zero otherwise.
pub proof fn lemma_search_continuous<V: VariableSearch>(
    arrange: spec_fn(Seq<BoundsView>, Option<BoundsView>, Option<BoundsView>) -> Seq<BoundsView>,
    problem: ProblemView,
    root: BoundsView,
    oracle: spec_fn(BoundsView) -> Option<(i64, Seq<i64>)>,
)
    requires
        forall|i: int| 0 <= i < problem.n ==> !problem.is_integer[i],
        arrange(Seq::empty(), None, None) == Seq::<BoundsView>::empty(),
    ensures
        search::<V>(arrange, problem, start(root), oracle).calls == 1,
        search::<V>(arrange, problem, start(root), oracle).lower == (match oracle(root) {
            Some((solution, values)) => if values.len() == problem.n && solution > 0 {
                solution
            } else {
                0
            },
            None => 0,
        }),
{
    let first = start(root);
    let next = step::<V>(arrange, problem, first, oracle(root));
    assert(first.frontier.drop_first() =~= Seq::empty());
    match oracle(root) {
        Some((solution, values)) => {
            assert(feasible(problem, values, root));
        },
        None => {},
    }
    assert(finished(next));
    assert(search::<V>(arrange, problem, next, oracle) == next);
}

} // verus!
