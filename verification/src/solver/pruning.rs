//! Why a search misses nothing: with an oracle that bounds every admissible
//! point of a box from above, no point with whole numbers where the problem
//! asks for them is better than the incumbent at the end.

use crate::problem::{
    lemma_split_children, lemma_split_partitions, BoundsView, ProblemView,
};
use crate::problem::child_admits;
use crate::solver::node::{
    finished, lemma_choice_exists, lemma_outcome, outcome, present, search, start, step,
    NodeSearch, NodeSort, SearchState, BFS, DFS,
};
use crate::solver::variable::{choice_of, eligible, feasible, selected, VariableSearch};
use crate::utils::{is_whole, lemma_floor_ceil};
use vstd::prelude::*;

verus! {

/// The point `x` lies in the box.
pub open spec fn inside(b: BoundsView, x: Seq<i64>) -> bool {
    &&& x.len() == b.lb.len()
    &&& x.len() == b.ub.len()
    &&& forall|k: int| 0 <= k < x.len() ==> b.lb[k] <= #[trigger] x[k] <= b.ub[k]
}

/// The point `x` holds a whole number for every variable that is declared
/// integer.
pub open spec fn integral(problem: ProblemView, x: Seq<i64>) -> bool {
    forall|k: int| 0 <= k < problem.n && problem.is_integer[k] ==> is_whole(#[trigger] x[k] as int)
}

/// The oracle is a relaxation of the problem whose points are the
/// `admissible` ones, with the objective `value`: for every valid box that
/// holds an admissible point, it answers with an assignment inside the box
/// and with an objective value that no admissible point of the box exceeds.
pub open spec fn relaxes(
    problem: ProblemView,
    oracle: spec_fn(BoundsView) -> Option<(i64, Seq<i64>)>,
    admissible: spec_fn(Seq<i64>) -> bool,
    value: spec_fn(Seq<i64>) -> int,
) -> bool {
    forall|b: BoundsView, x: Seq<i64>|
        b.wf() && b.dim() == problem.n && #[trigger] inside(b, x) && admissible(x) ==> (
        match oracle(b) {
            Some((solution, values)) => inside(b, values) && value(x) <= solution,
            None => false,
        })
}

/// The frontier that `arrange` gives holds the boxes that waited and the
/// children that exist, and no other box.
pub open spec fn keeps_boxes(
    arrange: spec_fn(Seq<BoundsView>, Option<BoundsView>, Option<BoundsView>) -> Seq<BoundsView>,
) -> bool {
    forall|rest: Seq<BoundsView>, left: Option<BoundsView>, right: Option<BoundsView>, b: BoundsView|
        #[trigger] arrange(rest, left, right).contains(b) <==> (rest.contains(b) || left == Some(b)
            || right == Some(b))
}

/// Depth first keeps the boxes, whatever the order of the children.
pub proof fn lemma_depth_first_keeps_boxes<T: NodeSort>()
    ensures
        keeps_boxes(
            |rest: Seq<BoundsView>, left: Option<BoundsView>, right: Option<BoundsView>|
                DFS::<T>::arrange(rest, left, right),
        ),
{
    let arrange = |rest: Seq<BoundsView>, left: Option<BoundsView>, right: Option<BoundsView>|
        DFS::<T>::arrange(rest, left, right);
    assert forall|
        rest: Seq<BoundsView>,
        left: Option<BoundsView>,
        right: Option<BoundsView>,
        b: BoundsView,
    | #[trigger] arrange(rest, left, right).contains(b) <==> (rest.contains(b) || left == Some(b)
        || right == Some(b)) by {
        let (first, second) = if T::swaps(left, right) {
            (right, left)
        } else {
            (left, right)
        };
        lemma_joined_contains(present(first, second), rest, b);
        lemma_present_contains(first, second, b);
    }
}

/// Breadth first keeps the boxes.
pub proof fn lemma_breadth_first_keeps_boxes()
    ensures
        keeps_boxes(
            |rest: Seq<BoundsView>, left: Option<BoundsView>, right: Option<BoundsView>|
                BFS::arrange(rest, left, right),
        ),
{
    let arrange = |rest: Seq<BoundsView>, left: Option<BoundsView>, right: Option<BoundsView>|
        BFS::arrange(rest, left, right);
    assert forall|
        rest: Seq<BoundsView>,
        left: Option<BoundsView>,
        right: Option<BoundsView>,
        b: BoundsView,
    | #[trigger] arrange(rest, left, right).contains(b) <==> (rest.contains(b) || left == Some(b)
        || right == Some(b)) by {
        lemma_joined_contains(rest, present(left, right), b);
        lemma_present_contains(left, right, b);
    }
}

/// A box is in the join of two sequences where it is in one of them.
proof fn lemma_joined_contains(front: Seq<BoundsView>, back: Seq<BoundsView>, b: BoundsView)
    ensures
        (front + back).contains(b) <==> (front.contains(b) || back.contains(b)),
{
    let joined = front + back;
    if front.contains(b) {
        let k = choose|k: int| 0 <= k < front.len() && front[k] == b;
        assert(joined[k] == b);
    }
    if back.contains(b) {
        let k = choose|k: int| 0 <= k < back.len() && back[k] == b;
        assert(joined[front.len() + k] == b);
    }
    if joined.contains(b) {
        let k = choose|k: int| 0 <= k < joined.len() && joined[k] == b;
        if k < front.len() {
            assert(front[k] == b);
        } else {
            assert(back[k - front.len()] == b);
        }
    }
}

/// The children that exist are the boxes of `present`.
proof fn lemma_present_contains(first: Option<BoundsView>, second: Option<BoundsView>, b: BoundsView)
    ensures
        present(first, second).contains(b) <==> (first == Some(b) || second == Some(b)),
{
    let head: Seq<BoundsView> = match first {
        Some(c) => seq![c],
        None => Seq::empty(),
    };
    let tail: Seq<BoundsView> = match second {
        Some(c) => seq![c],
        None => Seq::empty(),
    };
    lemma_joined_contains(head, tail, b);
    if first == Some(b) {
        assert(head[0] == b);
    }
    if second == Some(b) {
        assert(tail[0] == b);
    }
}

/// Every box of the frontier is valid and over the variables of the problem.
pub open spec fn valid_frontier(problem: ProblemView, frontier: Seq<BoundsView>) -> bool {
    forall|k: int| 0 <= k < frontier.len() ==> (#[trigger] frontier[k]).wf() && frontier[k].dim()
        == problem.n
}

/// The point `x` is accounted for: the incumbent is at least as good, or a
/// box of the frontier holds the point.
pub open spec fn accounted(state: SearchState, value: spec_fn(Seq<i64>) -> int, x: Seq<i64>) -> bool {
    value(x) <= state.lower || exists|k: int|
        0 <= k < state.frontier.len() && inside(#[trigger] state.frontier[k], x)
}

/// One visit keeps the frontier valid and keeps every admissible point with
/// whole numbers where they are asked for accounted for.
proof fn lemma_step_accounts<V: VariableSearch>(
    arrange: spec_fn(Seq<BoundsView>, Option<BoundsView>, Option<BoundsView>) -> Seq<BoundsView>,
    problem: ProblemView,
    state: SearchState,
    oracle: spec_fn(BoundsView) -> Option<(i64, Seq<i64>)>,
    admissible: spec_fn(Seq<i64>) -> bool,
    value: spec_fn(Seq<i64>) -> int,
    x: Seq<i64>,
)
    requires
        keeps_boxes(arrange),
        relaxes(problem, oracle, admissible, value),
        valid_frontier(problem, state.frontier),
        state.frontier.len() > 0,
        admissible(x),
        integral(problem, x),
        accounted(state, value, x),
    ensures
        valid_frontier(problem, step::<V>(arrange, problem, state, oracle(state.frontier[0])).frontier),
        accounted(step::<V>(arrange, problem, state, oracle(state.frontier[0])), value, x),
{
    let head = state.frontier[0];
    let rest = state.frontier.drop_first();
    let answer = oracle(head);
    let visited = outcome::<V>(problem, head, answer, state.lower);
    let next = step::<V>(arrange, problem, state, answer);
    assert(next.frontier == arrange(rest, visited.left, visited.right));
    lemma_outcome::<V>(problem, head, answer, state.lower);

    assert forall|k: int| 0 <= k < next.frontier.len() implies (#[trigger] next.frontier[k]).wf()
        && next.frontier[k].dim() == problem.n by {
        let b = next.frontier[k];
        assert(arrange(rest, visited.left, visited.right).contains(b));
        if rest.contains(b) {
            let j = choose|j: int| 0 <= j < rest.len() && rest[j] == b;
            assert(state.frontier[j + 1] == b);
        }
    }

    if value(x) <= state.lower {
    } else {
        let k = choose|k: int| 0 <= k < state.frontier.len() && inside(#[trigger] state.frontier[k], x);
        if k > 0 {
            assert(rest[k - 1] == state.frontier[k]);
            assert(rest.contains(state.frontier[k]));
            lemma_held(arrange, rest, visited.left, visited.right, state.frontier[k], next, x);
        } else {
            assert(inside(head, x));
            let (solution, values) = answer->0;
            assert(inside(head, values) && value(x) <= solution);
            if solution <= state.lower {
            } else if feasible(problem, values, head) {
            } else {
                let rank = |j: int| V::rank(problem, values, head, j);
                let i = choice_of::<V>(problem, values, head);
                assert(visited.left == head.split_left(i, values[i] as int));
                assert(selected(rank, problem, values, head, i)) by {
                    let e = choose|e: int| eligible(problem, values, head, e);
                    lemma_choice_exists::<V>(problem, values, head, e);
                }
                assert(eligible(problem, values, head, i));
                lemma_floor_ceil(values[i] as int);
                assert(head.lb[i] <= values[i] <= head.ub[i]);
                assert(is_whole(x[i] as int));
                assert(head.lb[i] <= x[i] <= head.ub[i]);
                lemma_split_partitions(head, i, values[i], x[i] as int);
                lemma_split_children(head, i, values[i]);
                if child_admits(visited.left, i, x[i] as int) {
                    let child = visited.left->0;
                    assert(inside(child, x));
                    lemma_held(arrange, rest, visited.left, visited.right, child, next, x);
                } else {
                    let child = visited.right->0;
                    assert(inside(child, x));
                    lemma_held(arrange, rest, visited.left, visited.right, child, next, x);
                }
            }
        }
    }
}

/// A box that the arrangement keeps and that holds `x` accounts for `x`.
proof fn lemma_held(
    arrange: spec_fn(Seq<BoundsView>, Option<BoundsView>, Option<BoundsView>) -> Seq<BoundsView>,
    rest: Seq<BoundsView>,
    left: Option<BoundsView>,
    right: Option<BoundsView>,
    b: BoundsView,
    next: SearchState,
    x: Seq<i64>,
)
    requires
        keeps_boxes(arrange),
        next.frontier == arrange(rest, left, right),
        rest.contains(b) || left == Some(b) || right == Some(b),
        inside(b, x),
    ensures
        exists|k: int| 0 <= k < next.frontier.len() && inside(#[trigger] next.frontier[k], x),
{
    assert(arrange(rest, left, right).contains(b));
    let k = choose|k: int| 0 <= k < next.frontier.len() && next.frontier[k] == b;
    assert(inside(next.frontier[k], x));
}

/// A search that exhausts its frontier misses nothing. Let the oracle be a
/// relaxation, let every box of the frontier be valid, and let `x` be an
/// admissible point with whole numbers where the problem asks for them that
/// is accounted for at the start. Then, where the search ends with an empty
/// frontier, the objective value of `x` does not exceed the incumbent.
pub proof fn lemma_search_accounts<V: VariableSearch>(
    arrange: spec_fn(Seq<BoundsView>, Option<BoundsView>, Option<BoundsView>) -> Seq<BoundsView>,
    problem: ProblemView,
    state: SearchState,
    oracle: spec_fn(BoundsView) -> Option<(i64, Seq<i64>)>,
    admissible: spec_fn(Seq<i64>) -> bool,
    value: spec_fn(Seq<i64>) -> int,
    x: Seq<i64>,
)
    requires
        keeps_boxes(arrange),
        relaxes(problem, oracle, admissible, value),
        valid_frontier(problem, state.frontier),
        admissible(x),
        integral(problem, x),
        accounted(state, value, x),
    ensures
        search::<V>(arrange, problem, state, oracle).frontier.len() == 0 ==> value(x) <= search::<V>(
            arrange,
            problem,
            state,
            oracle,
        ).lower,
    decreases u32::MAX - state.calls,
{
    if !finished(state) {
        lemma_step_accounts::<V>(arrange, problem, state, oracle, admissible, value, x);
        let next = step::<V>(arrange, problem, state, oracle(state.frontier[0]));
        lemma_search_accounts::<V>(arrange, problem, next, oracle, admissible, value, x);
    }
}

/// The search of a box is an upper bound. Let the oracle be a relaxation and
/// the box `root` valid. Where the search from `root` ends with an empty
/// frontier, no admissible point of `root` with whole numbers where the
/// problem asks for them has an objective value above the incumbent at the
/// end.
pub proof fn lemma_search_bounds_every_point<V: VariableSearch>(
    arrange: spec_fn(Seq<BoundsView>, Option<BoundsView>, Option<BoundsView>) -> Seq<BoundsView>,
    problem: ProblemView,
    root: BoundsView,
    oracle: spec_fn(BoundsView) -> Option<(i64, Seq<i64>)>,
    admissible: spec_fn(Seq<i64>) -> bool,
    value: spec_fn(Seq<i64>) -> int,
    x: Seq<i64>,
)
    requires
        keeps_boxes(arrange),
        relaxes(problem, oracle, admissible, value),
        root.wf(),
        root.dim() == problem.n,
        inside(root, x),
        admissible(x),
        integral(problem, x),
    ensures
        search::<V>(arrange, problem, start(root), oracle).frontier.len() == 0 ==> value(x)
            <= search::<V>(arrange, problem, start(root), oracle).lower,
{
    let first = start(root);
    assert(inside(first.frontier[0], x));
    lemma_search_accounts::<V>(arrange, problem, first, oracle, admissible, value, x);
}

/// The box `inner` lies within the box `outer`.
pub open spec fn within(outer: BoundsView, inner: BoundsView) -> bool {
    &&& inner.lb.len() == outer.lb.len()
    &&& inner.ub.len() == outer.ub.len()
    &&& forall|k: int| 0 <= k < outer.lb.len() ==> outer.lb[k] <= #[trigger] inner.lb[k]
    &&& forall|k: int| 0 <= k < outer.ub.len() ==> #[trigger] inner.ub[k] <= outer.ub[k]
}

/// The oracle answers inside the box: whenever it gives a value to each
/// variable of a valid box, the values lie within the limits of the box.
pub open spec fn answers_inside(
    problem: ProblemView,
    oracle: spec_fn(BoundsView) -> Option<(i64, Seq<i64>)>,
) -> bool {
    forall|b: BoundsView|
        b.wf() && b.dim() == problem.n ==> (match #[trigger] oracle(b) {
            Some((solution, values)) => values.len() == problem.n ==> inside(b, values),
            None => true,
        })
}

/// The incumbent `lower` was found: it is zero, or it is the objective value
/// that the oracle gave for a valid box within `root`, with values that leave
/// no variable to branch on.
pub open spec fn found(
    problem: ProblemView,
    root: BoundsView,
    oracle: spec_fn(BoundsView) -> Option<(i64, Seq<i64>)>,
    lower: i64,
) -> bool {
    lower == 0 || exists|b: BoundsView|
        b.wf() && #[trigger] within(root, b) && (match oracle(b) {
            Some((solution, values)) => solution == lower && values.len() == problem.n
                && feasible(problem, values, b),
            None => false,
        })
}

/// Every box of the frontier lies within `root`.
pub open spec fn frontier_within(root: BoundsView, frontier: Seq<BoundsView>) -> bool {
    forall|k: int| 0 <= k < frontier.len() ==> within(root, #[trigger] frontier[k])
}

/// One visit keeps the frontier valid and within the root, and keeps the
/// incumbent found.
proof fn lemma_step_finds<V: VariableSearch>(
    arrange: spec_fn(Seq<BoundsView>, Option<BoundsView>, Option<BoundsView>) -> Seq<BoundsView>,
    problem: ProblemView,
    root: BoundsView,
    state: SearchState,
    oracle: spec_fn(BoundsView) -> Option<(i64, Seq<i64>)>,
)
    requires
        keeps_boxes(arrange),
        answers_inside(problem, oracle),
        valid_frontier(problem, state.frontier),
        frontier_within(root, state.frontier),
        state.frontier.len() > 0,
        found(problem, root, oracle, state.lower),
    ensures
        valid_frontier(problem, step::<V>(arrange, problem, state, oracle(state.frontier[0])).frontier),
        frontier_within(root, step::<V>(arrange, problem, state, oracle(state.frontier[0])).frontier),
        found(
            problem,
            root,
            oracle,
            step::<V>(arrange, problem, state, oracle(state.frontier[0])).lower,
        ),
{
    let head = state.frontier[0];
    let rest = state.frontier.drop_first();
    let answer = oracle(head);
    let visited = outcome::<V>(problem, head, answer, state.lower);
    let next = step::<V>(arrange, problem, state, answer);
    assert(next.frontier == arrange(rest, visited.left, visited.right));
    lemma_outcome::<V>(problem, head, answer, state.lower);
    assert(within(root, head));

    // The children lie within the node, and so within the root.
    if visited.left is Some || visited.right is Some {
        let (solution, values) = answer->0;
        let i = choice_of::<V>(problem, values, head);
        assert(selected(|j: int| V::rank(problem, values, head, j), problem, values, head, i)) by {
            let e = choose|e: int| eligible(problem, values, head, e);
            lemma_choice_exists::<V>(problem, values, head, e);
        }
        assert(eligible(problem, values, head, i));
        assert(inside(head, values));
        assert(head.lb[i] <= values[i] <= head.ub[i]);
        lemma_floor_ceil(values[i] as int);
        lemma_split_children(head, i, values[i]);
        if visited.left is Some {
            assert(within(root, visited.left->0));
        }
        if visited.right is Some {
            assert(within(root, visited.right->0));
        }
    }

    assert forall|k: int| 0 <= k < next.frontier.len() implies (#[trigger] next.frontier[k]).wf()
        && next.frontier[k].dim() == problem.n && within(root, next.frontier[k]) by {
        let b = next.frontier[k];
        assert(arrange(rest, visited.left, visited.right).contains(b));
        if rest.contains(b) {
            let j = choose|j: int| 0 <= j < rest.len() && rest[j] == b;
            assert(state.frontier[j + 1] == b);
        }
    }

    if next.lower != state.lower {
        assert(within(root, head));
    }
}

/// What a search finds, the oracle gave. Let the oracle answer inside the
/// box, let every box of the frontier be valid and within `root`, and let the
/// incumbent at the start be found. Then the incumbent at the end is found.
pub proof fn lemma_search_finds<V: VariableSearch>(
    arrange: spec_fn(Seq<BoundsView>, Option<BoundsView>, Option<BoundsView>) -> Seq<BoundsView>,
    problem: ProblemView,
    root: BoundsView,
    state: SearchState,
    oracle: spec_fn(BoundsView) -> Option<(i64, Seq<i64>)>,
)
    requires
        keeps_boxes(arrange),
        answers_inside(problem, oracle),
        valid_frontier(problem, state.frontier),
        frontier_within(root, state.frontier),
        found(problem, root, oracle, state.lower),
    ensures
        found(problem, root, oracle, search::<V>(arrange, problem, state, oracle).lower),
    decreases u32::MAX - state.calls,
{
    if !finished(state) {
        lemma_step_finds::<V>(arrange, problem, root, state, oracle);
        let next = step::<V>(arrange, problem, state, oracle(state.frontier[0]));
        lemma_search_finds::<V>(arrange, problem, root, next, oracle);
    }
}

/// The result of the search of a valid box `root`, with an oracle that answers
/// inside the box, is zero or an objective value that the oracle gave for a
/// box within `root`, with values that leave no variable to branch on.
pub proof fn lemma_search_result_found<V: VariableSearch>(
    arrange: spec_fn(Seq<BoundsView>, Option<BoundsView>, Option<BoundsView>) -> Seq<BoundsView>,
    problem: ProblemView,
    root: BoundsView,
    oracle: spec_fn(BoundsView) -> Option<(i64, Seq<i64>)>,
)
    requires
        keeps_boxes(arrange),
        answers_inside(problem, oracle),
        root.wf(),
        root.dim() == problem.n,
    ensures
        found(problem, root, oracle, search::<V>(arrange, problem, start(root), oracle).lower),
{
    let first = start(root);
    assert(within(root, first.frontier[0]));
    lemma_search_finds::<V>(arrange, problem, root, first, oracle);
}

} // verus!
