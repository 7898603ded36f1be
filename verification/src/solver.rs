//! Branch and bound: the policies that pick a branching variable, the
//! policies that order the search, and the search with the usual pair of them.

pub mod node;
pub mod pruning;
pub mod variable;

use crate::problem::{Bounds, BoundsView, ProblemIR};
use crate::solver::node::{answers_all, describes, search, start, NoSort, NodeSearch, DFS};
use crate::solver::variable::ByConstraints;
use vstd::prelude::*;

verus! {

/// Searches the box `bounds` depth first, lower child first, branching on the
/// variable that is significant in the most constraints. Returns the best
/// objective value found, zero where none exceeds zero, and the number of
/// relaxations that `oracle` was asked for.
pub fn solve<O: Fn(&ProblemIR, &Bounds) -> Option<(i64, Vec<i64>)>>(
    problem: &ProblemIR,
    bounds: Bounds,
    oracle: O,
) -> (result: (i64, u32))
    requires
        problem@.is_integer.len() == problem@.n,
        problem@.constraints_per_variable.len() == problem@.n,
        bounds@.wf(),
        bounds@.dim() == problem@.n,
        answers_all(oracle, *problem),
    ensures
        result.0 >= 0,
        result.1 >= 1,
        forall|answers: spec_fn(BoundsView) -> Option<(i64, Seq<i64>)>| #[trigger]
            describes(oracle, *problem, answers) ==> {
                let end = search::<ByConstraints>(
                    |rest: Seq<BoundsView>, left: Option<BoundsView>, right: Option<BoundsView>|
                        DFS::<NoSort>::arrange(rest, left, right),
                    problem@,
                    start(bounds@),
                    answers,
                );
                result.0 == end.lower && result.1 == end.calls
            },
{
    DFS::<NoSort>::solve::<ByConstraints, O>(problem, bounds, oracle)
}

} // verus!
