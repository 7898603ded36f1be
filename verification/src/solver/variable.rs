//! Policies that pick the variable to branch on.

use crate::problem::{Bounds, BoundsView, ProblemIR, ProblemView};
use crate::utils::{fractional, is_float};
use vstd::prelude::*;

verus! {

/// Variable `i` can be branched on: it is declared integer, its relaxed value
/// is fractional beyond the tolerance, and the box is not collapsed on it.
pub open spec fn eligible(
    problem: ProblemView,
    values: Seq<i64>,
    bounds: BoundsView,
    i: int,
) -> bool {
    &&& 0 <= i < problem.n
    &&& problem.is_integer[i]
    &&& fractional(values[i] as int)
    &&& !bounds.collapsed(i)
}

/// No variable can be branched on: the relaxed values solve the problem with
/// its integrality restrictions inside this box.
pub open spec fn feasible(problem: ProblemView, values: Seq<i64>, bounds: BoundsView) -> bool {
    forall|i: int| !eligible(problem, values, bounds, i)
}

/// The problem, the relaxed values and the box speak of the same variables.
pub open spec fn aligned(problem: ProblemView, values: Seq<i64>, bounds: BoundsView) -> bool {
    &&& problem.is_integer.len() == problem.n
    &&& problem.constraints_per_variable.len() == problem.n
    &&& values.len() == problem.n
    &&& bounds.lb.len() == problem.n
    &&& bounds.ub.len() == problem.n
}

/// Variable `i` is the choice under the ranks `rank`: it can be branched on, no
/// variable that can be branched on ranks higher, and none before it ranks as
/// high.
pub open spec fn selected(
    rank: spec_fn(int) -> int,
    problem: ProblemView,
    values: Seq<i64>,
    bounds: BoundsView,
    i: int,
) -> bool {
    &&& eligible(problem, values, bounds, i)
    &&& forall|j: int| #[trigger] eligible(problem, values, bounds, j) ==> rank(j) <= rank(i)
    &&& forall|j: int| j < i && #[trigger] eligible(problem, values, bounds, j) ==> rank(j) < rank(i)
}

/// A policy that picks, among the variables that can be branched on, the one
/// to branch on next.
pub trait VariableSearch {
    /// The rank that the policy gives variable `i`. The policy prefers the
    /// higher rank, and among equal ranks the lower index.
    spec fn rank(problem: ProblemView, values: Seq<i64>, bounds: BoundsView, i: int) -> int;

    /// The variable to branch on, or `None` where none can be branched on.
    fn pick(problem: &ProblemIR, values: &[i64], bounds: &Bounds) -> (choice: Option<usize>)
        requires
            aligned(problem@, values@, bounds@),
        ensures
            match choice {
                Some(i) => selected(
                    |j: int| Self::rank(problem@, values@, bounds@, j),
                    problem@,
                    values@,
                    bounds@,
                    i as int,
                ),
                None => feasible(problem@, values@, bounds@),
            },
    ;
}

/// The choice of policy `V`, where a variable can be branched on.
pub open spec fn choice_of<V: VariableSearch>(
    problem: ProblemView,
    values: Seq<i64>,
    bounds: BoundsView,
) -> int {
    let rank = |j: int| V::rank(problem, values, bounds, j);
    choose|i: int| #[trigger] selected(rank, problem, values, bounds, i)
}

/// A policy has at most one choice.
pub proof fn lemma_selected_unique(
    rank: spec_fn(int) -> int,
    problem: ProblemView,
    values: Seq<i64>,
    bounds: BoundsView,
    i: int,
    j: int,
)
    requires
        selected(rank, problem, values, bounds, i),
        selected(rank, problem, values, bounds, j),
    ensures
        i == j,
{
}

/// The way a policy ranks the variables.
enum Rule {
    First,
    Value,
    Constraints,
    Length,
}

/// The rank of variable `i` under `rule`.
spec fn rank_under(
    rule: Rule,
    problem: ProblemView,
    values: Seq<i64>,
    bounds: BoundsView,
    i: int,
) -> int {
    match rule {
        Rule::First => 0,
        Rule::Value => values[i] as int,
        Rule::Constraints => problem.constraints_per_variable[i] as int,
        Rule::Length => bounds.length(i),
    }
}

/// Scans the variables in index order and keeps the best seen so far; a later
/// variable replaces it only with a strictly higher rank.
fn scan(rule: Rule, problem: &ProblemIR, values: &[i64], bounds: &Bounds) -> (choice: Option<usize>)
    requires
        aligned(problem@, values@, bounds@),
    ensures
        match choice {
            Some(i) => selected(
                |j: int| rank_under(rule, problem@, values@, bounds@, j),
                problem@,
                values@,
                bounds@,
                i as int,
            ),
            None => feasible(problem@, values@, bounds@),
        },
{
    let n = values.len();
    let mut best: Option<usize> = None;
    let mut best_rank: i128 = 0;
    let mut i: usize = 0;
    while i < n
        invariant
            aligned(problem@, values@, bounds@),
            n == values@.len(),
            i <= n,
            match best {
                Some(b) => {
                    &&& b < i
                    &&& eligible(problem@, values@, bounds@, b as int)
                    &&& best_rank == rank_under(rule, problem@, values@, bounds@, b as int)
                    &&& forall|j: int|
                        j < i && #[trigger] eligible(problem@, values@, bounds@, j) ==> rank_under(
                            rule,
                            problem@,
                            values@,
                            bounds@,
                            j,
                        ) <= best_rank
                    &&& forall|j: int|
                        j < b && #[trigger] eligible(problem@, values@, bounds@, j) ==> rank_under(
                            rule,
                            problem@,
                            values@,
                            bounds@,
                            j,
                        ) < best_rank
                },
                None => forall|j: int| j < i ==> !eligible(problem@, values@, bounds@, j),
            },
        decreases n - i,
    {
        if problem.is_integer[i] && is_float(values[i]) && bounds.lb[i] != bounds.ub[i] {
            let rank: i128 = match rule {
                Rule::First => 0,
                Rule::Value => values[i] as i128,
                Rule::Constraints => problem.constraints_per_variable[i] as i128,
                Rule::Length => bounds.ub[i] as i128 - bounds.lb[i] as i128,
            };
            match best {
                Some(_) => {
                    if rank > best_rank {
                        best = Some(i);
                        best_rank = rank;
                    }
                },
                None => {
                    best = Some(i);
                    best_rank = rank;
                },
            }
        }
        i += 1;
    }
    best
}

/// Whether the relaxed values solve the problem with its integrality
/// restrictions inside this box: whether no variable can be branched on.
pub fn is_milp_solution(problem: &ProblemIR, values: &[i64], bounds: &Bounds) -> (r: bool)
    requires
        aligned(problem@, values@, bounds@),
    ensures
        r == feasible(problem@, values@, bounds@),
{
    let n = values.len();
    let mut i: usize = 0;
    while i < n
        invariant
            aligned(problem@, values@, bounds@),
            n == values@.len(),
            i <= n,
            forall|j: int| j < i ==> !eligible(problem@, values@, bounds@, j),
        decreases n - i,
    {
        if problem.is_integer[i] && is_float(values[i]) && bounds.lb[i] != bounds.ub[i] {
            assert(eligible(problem@, values@, bounds@, i as int));
            return false;
        }
        i += 1;
    }
    true
}

/// Takes the first variable that can be branched on.
pub struct NoSearch;

impl VariableSearch for NoSearch {
    open spec fn rank(problem: ProblemView, values: Seq<i64>, bounds: BoundsView, i: int) -> int {
        0
    }

    fn pick(problem: &ProblemIR, values: &[i64], bounds: &Bounds) -> (choice: Option<usize>)
        ensures
            choice matches Some(i) ==> forall|j: int|
                j < i ==> !eligible(problem@, values@, bounds@, j),
    {
        scan(Rule::First, problem, values, bounds)
    }
}

/// Takes the variable with the largest relaxed value.
pub struct ByValue;

impl VariableSearch for ByValue {
    open spec fn rank(problem: ProblemView, values: Seq<i64>, bounds: BoundsView, i: int) -> int {
        values[i] as int
    }

    fn pick(problem: &ProblemIR, values: &[i64], bounds: &Bounds) -> (choice: Option<usize>)
        ensures
            choice matches Some(i) ==> forall|j: int| #[trigger]
                eligible(problem@, values@, bounds@, j) ==> values[j] <= values[i as int],
    {
        scan(Rule::Value, problem, values, bounds)
    }
}

/// Takes the variable that is significant in the most constraints.
pub struct ByConstraints;

impl VariableSearch for ByConstraints {
    open spec fn rank(problem: ProblemView, values: Seq<i64>, bounds: BoundsView, i: int) -> int {
        problem.constraints_per_variable[i] as int
    }

    fn pick(problem: &ProblemIR, values: &[i64], bounds: &Bounds) -> (choice: Option<usize>)
        ensures
            choice matches Some(i) ==> forall|j: int| #[trigger]
                eligible(problem@, values@, bounds@, j) ==> problem.constraints_per_variable[j]
                    <= problem.constraints_per_variable[i as int],
    {
        scan(Rule::Constraints, problem, values, bounds)
    }
}

/// Takes the variable along which the box is widest.
pub struct ByLength;

impl VariableSearch for ByLength {
    open spec fn rank(problem: ProblemView, values: Seq<i64>, bounds: BoundsView, i: int) -> int {
        bounds.length(i)
    }

    fn pick(problem: &ProblemIR, values: &[i64], bounds: &Bounds) -> (choice: Option<usize>)
        ensures
            choice matches Some(i) ==> forall|j: int| #[trigger]
                eligible(problem@, values@, bounds@, j) ==> bounds@.length(j) <= bounds@.length(
                    i as int,
                ),
    {
        scan(Rule::Length, problem, values, bounds)
    }
}

} // verus!
