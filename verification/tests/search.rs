use good_lp::{
    default_solver, variable, Expression, ProblemVariables, Solution, SolverModel, Variable,
};
use integer_programming::problem::{Bounds, ProblemIR};
use integer_programming::solver::node::{ByInterval, NoSort, NodeSearch, BFS, DFS};
use integer_programming::solver::solve;
use integer_programming::solver::variable::{
    ByConstraints, ByLength, ByValue, NoSearch, VariableSearch,
};
use integer_programming::utils::SCALE;

fn fixed(x: f64) -> i64 {
    (x * SCALE as f64).round() as i64
}

fn float(x: i64) -> f64 {
    x as f64 / SCALE as f64
}

fn fixed_all(xs: &[f64]) -> Vec<i64> {
    xs.iter().map(|x| fixed(*x)).collect()
}

/// The linear relaxation of the problem inside the box.
fn relax(problem: &ProblemIR, bounds: &Bounds) -> Option<(i64, Vec<i64>)> {
    let mut problem_variables = ProblemVariables::new();
    let variables: Vec<Variable> = bounds
        .lb
        .iter()
        .zip(bounds.ub.iter())
        .map(|(lb, ub)| problem_variables.add(variable().min(float(*lb)).max(float(*ub))))
        .collect();
    let objective: Expression = variables
        .iter()
        .zip(problem.objective_coefficients.iter())
        .map(|(v, c)| float(*c) * *v)
        .sum();
    let mut model = problem_variables
        .maximise(objective.clone())
        .using(default_solver);
    for (row, resource) in problem.coefficients.iter().zip(problem.resources.iter()) {
        let expression: Expression = row
            .iter()
            .zip(variables.iter())
            .map(|(c, v)| float(*c) * *v)
            .sum();
        model = model.with(expression.leq(float(*resource)));
    }
    model.solve().ok().map(|solution| {
        let values: Vec<i64> = variables
            .iter()
            .map(|v| fixed(solution.value(*v)))
            .collect();
        (fixed(solution.eval(&objective)), values)
    })
}

struct Sample {
    problem: ProblemIR,
    bounds: Bounds,
    optimum: Option<f64>,
    max_solver_calls: Option<u32>,
}

fn lecture_sample() -> Sample {
    let coefficients: Vec<Vec<i64>> = vec![
        fixed_all(&[4.0, 3.0, 4.0, 2.0]),
        fixed_all(&[0.0, 0.0, 1.0, 1.5]),
        fixed_all(&[1.25, 0.0, 1.0, 0.0]),
    ];
    let resources = fixed_all(&[15.0, 1.0, 5.0]);
    let objective_coefficients = fixed_all(&[5.0, 4.0, 6.0, 8.0]);
    let lb = fixed_all(&[0.0; 4]);
    let ub = fixed_all(&[4.0, 4.0, 1.0, 1.0]);
    let is_integer = vec![true, true, false, false];

    let problem = ProblemIR::new(coefficients, objective_coefficients, resources, is_integer);
    let bounds = Bounds { lb, ub };

    Sample {
        problem,
        bounds,
        optimum: Some(22.5),
        max_solver_calls: None,
    }
}

fn lab_sample(relaxed: bool, check: bool) -> Sample {
    let coefficients: Vec<Vec<i64>> = vec![
        fixed_all(&[0.0, 3.0, 2.0, 0.0, 0.0, 0.0, -3.0, -1.0, 0.0, 0.0]),
        fixed_all(&[1.0, 1.0, 0.0, 2.0, 0.0, 0.0, 0.0, -1.0, 2.0, 1.0]),
        fixed_all(&[0.0, 0.0, 2.0, -2.0, 3.0, 0.0, -2.0, 2.0, 1.0, 0.0]),
        fixed_all(&[0.0, 0.0, 2.0, 0.0, 0.0, -1.0, 0.0, 0.0, 0.0, 1.0]),
        fixed_all(&[0.0, 2.0, 0.0, 0.0, 0.0, -2.0, 0.0, 0.0, 0.0, 1.0]),
        fixed_all(&[1.0, 4.0, 0.0, 0.0, 0.0, 0.0, -3.0, 6.0, 2.0, 0.0]),
        fixed_all(&[2.0, 2.0, 0.0, 0.0, 2.0, 2.0, 0.0, 0.0, 2.0, 2.0]),
        fixed_all(&[0.0, 0.0, 3.0, 0.0, -1.0, 1.0, 0.0, -1.0, 0.0, 1.0]),
        fixed_all(&[0.0, 0.0, 0.0, 0.0, 5.0, 0.0, 1.0, 1.0, 0.0, 3.0]),
        fixed_all(&[2.0, -7.0, 0.0, 0.0, 0.0, 1.0, 0.0, 8.0, 2.0, 0.0]),
    ];
    let resources = fixed_all(&[10.0, 15.0, 20.0, 20.0, 30.0, 50.0, 40.0, 20.0, 25.0, 25.0]);
    let objective_coefficients = fixed_all(&[5.0, 7.0, 5.0, 5.0, 5.0, 5.0, 7.0, 4.0, 9.0, 10.0]);
    let lb = fixed_all(&[0.0; 10]);
    let ub = fixed_all(&[5.0, 8.0, 4.0, 5.0, 4.0, 5.0, 5.0, 3.0, 3.0, 3.0]);

    // The first five are whole unless the problem is relaxed; the last five
    // are continuous.
    let is_integer = vec![!relaxed; 5]
        .into_iter()
        .chain(vec![false; 5])
        .collect::<Vec<_>>();

    let problem = ProblemIR::new(coefficients, objective_coefficients, resources, is_integer);
    let bounds = Bounds { lb, ub };
    let optimum = if check { Some(207.0) } else { None };
    let max_solver_calls = if check { Some(20) } else { None };

    Sample {
        problem,
        bounds,
        optimum,
        max_solver_calls,
    }
}

fn run<N, V>(sample: Sample) -> (f64, u32)
where
    N: NodeSearch,
    V: VariableSearch,
{
    let (solution, iterations) = N::solve::<V, _>(&sample.problem, sample.bounds, relax);
    let solution = float(solution);
    println!("Answer: {}", solution);
    println!("Solver calls: {}", iterations);
    if let Some(optimum) = sample.optimum {
        assert!((solution - optimum).abs() <= f64::EPSILON);
    }
    if let Some(max_solver_calls) = sample.max_solver_calls {
        assert!(iterations < max_solver_calls, "Optimization is not enough");
    }
    (solution, iterations)
}

fn solve_lecture_classic() -> (f64, u32) {
    let sample = lecture_sample();
    run::<DFS<NoSort>, ByConstraints>(sample)
}

fn solve_lab_parametrized<N: NodeSearch, V: VariableSearch>(check: bool) -> (f64, u32) {
    let sample = lab_sample(false, check);
    run::<N, V>(sample)
}

fn solve_lab_default() -> (f64, u32) {
    solve_lab_parametrized::<DFS<NoSort>, ByLength>(false)
}

fn matrix() -> Vec<((&'static str, &'static str), (f64, u32))> {
    let cross = vec![
        (("DFS<NoSort>", "NoSearch"), solve_lab_parametrized::<DFS<NoSort>, NoSearch>(false)),
        (("DFS<NoSort>", "ByConstraints"), solve_lab_parametrized::<DFS<NoSort>, ByConstraints>(false)),
        (("DFS<NoSort>", "ByLength"), solve_lab_parametrized::<DFS<NoSort>, ByLength>(false)),
        (("DFS<NoSort>", "ByValue"), solve_lab_parametrized::<DFS<NoSort>, ByValue>(false)),
        (("DFS<ByInterval>", "NoSearch"), solve_lab_parametrized::<DFS<ByInterval>, NoSearch>(false)),
        (("DFS<ByInterval>", "ByConstraints"), solve_lab_parametrized::<DFS<ByInterval>, ByConstraints>(false)),
        (("DFS<ByInterval>", "ByLength"), solve_lab_parametrized::<DFS<ByInterval>, ByLength>(false)),
        (("DFS<ByInterval>", "ByValue"), solve_lab_parametrized::<DFS<ByInterval>, ByValue>(false)),
    ];
    for ((node_search, variable_search), (value, calls)) in cross.iter() {
        println!(" {:<16} | {:<16} | {} / {}", node_search, variable_search, value, calls);
    }
    cross
}

#[test]
fn tests_solve_lecture() {
    solve_lecture_classic();
}

#[test]
fn tests_solve_lab() {
    solve_lab_default();
}

#[test]
fn tests_solve_matrix() {
    matrix();
}

#[test]
fn lecture_optimum_is_twenty_two_and_a_half() {
    let (solution, calls) = solve_lecture_classic();
    assert_eq!(solution, 22.5);
    assert!(calls >= 1);
}

#[test]
fn lab_optimum_is_two_hundred_and_seven() {
    let sample = lab_sample(false, true);
    assert_eq!(sample.optimum, Some(207.0));
    assert_eq!(sample.max_solver_calls, Some(20));
    // How many relaxations a search asks for depends on which of several
    // optimal assignments the relaxation solver returns; the optimum does not.
    let (solution, calls) =
        DFS::<NoSort>::solve::<ByLength, _>(&sample.problem, sample.bounds, relax);
    assert_eq!(float(solution), 207.0);
    assert!(calls >= 1);
    let (solution, calls) = solve_lab_parametrized::<DFS<NoSort>, ByValue>(true);
    assert_eq!(solution, 207.0);
    assert!(calls < 20);
}

#[test]
fn every_pair_of_policies_finds_the_lab_optimum() {
    for (_, (value, calls)) in matrix() {
        assert_eq!(value, 207.0);
        assert!(calls >= 1);
    }
    let (value, _) = solve_lab_parametrized::<BFS, ByValue>(false);
    assert_eq!(value, 207.0);
    let (value, _) = solve_lab_parametrized::<BFS, NoSearch>(false);
    assert_eq!(value, 207.0);
}

#[test]
fn continuous_problem_takes_one_call() {
    let sample = lab_sample(true, false);
    let whole_box = relax(&sample.problem, &sample.bounds).expect("the box is feasible");
    let (solution, calls) = DFS::<NoSort>::solve::<ByLength, _>(&sample.problem, sample.bounds, relax);
    assert_eq!(calls, 1);
    assert_eq!(solution, whole_box.0);

    let sample = lab_sample(true, false);
    let (solution, calls) = BFS::solve::<NoSearch, _>(&sample.problem, sample.bounds, relax);
    assert_eq!(calls, 1);
    assert_eq!(solution, whole_box.0);
}

#[test]
fn same_search_twice_gives_the_same_result() {
    let first = run::<DFS<ByInterval>, ByValue>(lab_sample(false, false));
    let second = run::<DFS<ByInterval>, ByValue>(lab_sample(false, false));
    assert_eq!(first, second);
    let first = run::<BFS, ByConstraints>(lecture_sample());
    let second = run::<BFS, ByConstraints>(lecture_sample());
    assert_eq!(first, second);
}

#[test]
fn default_search_is_depth_first_by_constraints() {
    let sample = lecture_sample();
    let by_default = solve(&sample.problem, sample.bounds, relax);
    let sample = lecture_sample();
    let spelled_out = DFS::<NoSort>::solve::<ByConstraints, _>(&sample.problem, sample.bounds, relax);
    assert_eq!(by_default, spelled_out);
    assert_eq!(by_default.0, fixed(22.5));
}

#[test]
fn infeasible_root_leaves_the_incumbent_at_zero() {
    let sample = lecture_sample();
    let (solution, calls) =
        DFS::<NoSort>::solve::<NoSearch, _>(&sample.problem, sample.bounds, |_, _| None);
    assert_eq!((solution, calls), (0, 1));
    let sample = lecture_sample();
    let (solution, calls) = BFS::solve::<NoSearch, _>(&sample.problem, sample.bounds, |_, _| None);
    assert_eq!((solution, calls), (0, 1));
}
