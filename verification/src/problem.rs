//! The data of a mixed-integer linear program: the static description of the
//! problem and the box of limits that one node of the search works in.

use crate::utils::{
    ceil, ceil_of, floor, floor_of, is_whole, lemma_floor_ceil, lemma_no_whole_between, EPSILON,
};
use vstd::prelude::*;

verus! {

/// The static description of a problem: maximise `objective_coefficients * x`
/// subject to `coefficients * x <= resources`, with the variables flagged in
/// `is_integer` restricted to whole numbers. All numbers are in fixed-point
/// units.
pub struct ProblemIR {
    /// One row per constraint, one entry per variable.
    pub coefficients: Vec<Vec<i64>>,
    pub objective_coefficients: Vec<i64>,
    /// The right-hand side of each constraint.
    pub resources: Vec<i64>,
    pub is_integer: Vec<bool>,
    /// The number of variables.
    pub n: usize,
    /// For each variable, the number of constraints in which its coefficient
    /// is significant.
    pub constraints_per_variable: Vec<u32>,
}

/// What a problem holds.
pub struct ProblemView {
    pub coefficients: Seq<Seq<i64>>,
    pub objective_coefficients: Seq<i64>,
    pub resources: Seq<i64>,
    pub is_integer: Seq<bool>,
    pub n: nat,
    pub constraints_per_variable: Seq<u32>,
}

/// The rows of a matrix as sequences.
pub open spec fn rows_of(matrix: Seq<Vec<i64>>) -> Seq<Seq<i64>> {
    Seq::new(matrix.len(), |r: int| matrix[r]@)
}

impl View for ProblemIR {
    type V = ProblemView;

    open spec fn view(&self) -> ProblemView {
        ProblemView {
            coefficients: rows_of(self.coefficients@),
            objective_coefficients: self.objective_coefficients@,
            resources: self.resources@,
            is_integer: self.is_integer@,
            n: self.n as nat,
            constraints_per_variable: self.constraints_per_variable@,
        }
    }
}

/// A coefficient is significant where its magnitude exceeds the tolerance.
pub open spec fn significant(coefficient: int) -> bool {
    coefficient > EPSILON || coefficient < -EPSILON
}

/// The number of rows among the first `count` in which the entry of `column`
/// exists and is significant.
pub open spec fn significant_in_column(rows: Seq<Seq<i64>>, column: int, count: nat) -> nat
    decreases count,
{
    if count == 0 {
        0
    } else {
        let row = rows[count - 1];
        let here: nat = if column < row.len() && significant(row[column] as int) {
            1
        } else {
            0
        };
        significant_in_column(rows, column, (count - 1) as nat) + here
    }
}

impl ProblemView {
    /// The flags and the counts cover `n` variables, and each count is the
    /// number of constraints in which the variable is significant.
    pub open spec fn counted(self) -> bool {
        &&& self.is_integer.len() == self.n
        &&& self.constraints_per_variable.len() == self.n
        &&& forall|j: int|
            0 <= j < self.n ==> self.constraints_per_variable[j] == significant_in_column(
                self.coefficients,
                j,
                self.coefficients.len(),
            )
    }

    /// Every vector has the length that the numbers of variables and of
    /// constraints give it.
    pub open spec fn rectangular(self) -> bool {
        &&& self.objective_coefficients.len() == self.n
        &&& self.resources.len() == self.coefficients.len()
        &&& forall|r: int|
            0 <= r < self.coefficients.len() ==> (#[trigger] self.coefficients[r]).len() == self.n
    }

    /// The problem is consistent: rectangular, with the right counts.
    pub open spec fn wf(self) -> bool {
        self.counted() && self.rectangular()
    }
}

/// A count never exceeds the number of rows counted.
pub proof fn lemma_significant_in_column_bounded(rows: Seq<Seq<i64>>, column: int, count: nat)
    ensures
        significant_in_column(rows, column, count) <= count,
    decreases count,
{
    if count > 0 {
        lemma_significant_in_column_bounded(rows, column, (count - 1) as nat);
    }
}

impl ProblemIR {
    /// Builds a problem from its matrix, objective, right-hand sides and
    /// integrality flags. The number of variables is the number of flags,
    /// and the significant coefficients of each variable are counted here,
    /// once.
    pub fn new(
        coefficients: Vec<Vec<i64>>,
        objective_coefficients: Vec<i64>,
        resources: Vec<i64>,
        is_integer: Vec<bool>,
    ) -> (problem: ProblemIR)
        requires
            coefficients.len() <= u32::MAX,
            forall|r: int| 0 <= r < coefficients.len() ==> coefficients[r].len() <= is_integer.len(),
        ensures
            problem@.coefficients == rows_of(coefficients@),
            problem@.objective_coefficients == objective_coefficients@,
            problem@.resources == resources@,
            problem@.is_integer == is_integer@,
            problem@.n == is_integer.len(),
            problem@.counted(),
    {
        let n = is_integer.len();
        let m = coefficients.len();
        let mut constraints_per_variable: Vec<u32> = Vec::new();
        let mut j: usize = 0;
        while j < n
            invariant
                j <= n,
                constraints_per_variable.len() == j,
                forall|k: int| 0 <= k < j ==> constraints_per_variable[k] == 0,
            decreases n - j,
        {
            constraints_per_variable.push(0);
            j += 1;
        }
        let ghost rows = rows_of(coefficients@);
        let mut r: usize = 0;
        while r < m
            invariant
                r <= m,
                m == coefficients.len(),
                m <= u32::MAX,
                n == is_integer.len(),
                rows == rows_of(coefficients@),
                forall|q: int| 0 <= q < coefficients.len() ==> coefficients[q].len() <= n,
                constraints_per_variable.len() == n,
                forall|k: int|
                    0 <= k < n ==> constraints_per_variable[k] == significant_in_column(
                        rows,
                        k,
                        r as nat,
                    ),
            decreases m - r,
        {
            let constraint = &coefficients[r];
            let width = constraint.len();
            assert(rows[r as int] == constraint@);
            let mut c: usize = 0;
            while c < width
                invariant
                    c <= width,
                    width == constraint.len(),
                    width <= n,
                    r < m,
                    m <= u32::MAX,
                    rows[r as int] == constraint@,
                    constraints_per_variable.len() == n,
                    forall|k: int|
                        0 <= k < c ==> constraints_per_variable[k] == significant_in_column(
                            rows,
                            k,
                            (r + 1) as nat,
                        ),
                    forall|k: int|
                        c <= k < n ==> constraints_per_variable[k] == significant_in_column(
                            rows,
                            k,
                            r as nat,
                        ),
                decreases width - c,
            {
                let entry = constraint[c];
                if entry > EPSILON || entry < -EPSILON {
                    proof {
                        lemma_significant_in_column_bounded(rows, c as int, r as nat);
                    }
                    let count = constraints_per_variable[c];
                    constraints_per_variable.set(c, count + 1);
                }
                c += 1;
            }
            r += 1;
        }
        ProblemIR {
            coefficients,
            objective_coefficients,
            resources,
            is_integer,
            n,
            constraints_per_variable,
        }
    }
}

/// A box: for each variable a lower and an upper limit, in fixed-point units.
#[derive(Clone, Debug)]
pub struct Bounds {
    pub lb: Vec<i64>,
    pub ub: Vec<i64>,
}

/// What a box holds.
pub struct BoundsView {
    pub lb: Seq<i64>,
    pub ub: Seq<i64>,
}

impl View for Bounds {
    type V = BoundsView;

    open spec fn view(&self) -> BoundsView {
        BoundsView { lb: self.lb@, ub: self.ub@ }
    }
}

/// The view of a box that may be absent.
pub open spec fn view_of(bounds: Option<Bounds>) -> Option<BoundsView> {
    match bounds {
        Some(b) => Some(b@),
        None => None,
    }
}

/// The sum of `ub[k] - lb[k]` over the first `count` dimensions.
pub open spec fn sum_of_lengths(lb: Seq<i64>, ub: Seq<i64>, count: nat) -> int
    decreases count,
{
    if count == 0 {
        0
    } else {
        sum_of_lengths(lb, ub, (count - 1) as nat) + (ub[count - 1] - lb[count - 1])
    }
}

impl BoundsView {
    /// Both limit vectors cover the same variables and no lower limit lies
    /// above its upper limit.
    pub open spec fn wf(self) -> bool {
        &&& self.lb.len() == self.ub.len()
        &&& forall|k: int| 0 <= k < self.lb.len() ==> self.lb[k] <= self.ub[k]
    }

    /// The number of variables.
    pub open spec fn dim(self) -> nat {
        self.lb.len()
    }

    /// The box admits only one value for variable `i`.
    pub open spec fn collapsed(self, i: int) -> bool {
        self.lb[i] == self.ub[i]
    }

    /// The width of the box along variable `i`.
    pub open spec fn length(self, i: int) -> int {
        self.ub[i] - self.lb[i]
    }

    /// The sum of the widths over all variables.
    pub open spec fn total_length(self) -> int {
        sum_of_lengths(self.lb, self.ub, self.lb.len())
    }

    /// The box admits `z` for variable `i`.
    pub open spec fn admits(self, i: int, z: int) -> bool {
        self.lb[i] <= z <= self.ub[i]
    }

    /// The lower child of a split of variable `i` at `value`: the box with
    /// the upper limit of `i` lowered to the floor of `value`. It is absent
    /// where the box is collapsed on `i` or the floor lies below the lower
    /// limit.
    pub open spec fn split_left(self, i: int, value: int) -> Option<BoundsView> {
        if !self.collapsed(i) && self.lb[i] <= floor_of(value) {
            Some(BoundsView { lb: self.lb, ub: self.ub.update(i, floor_of(value) as i64) })
        } else {
            None
        }
    }

    /// The upper child of a split of variable `i` at `value`: the box with
    /// the lower limit of `i` raised to the ceiling of `value`. It is absent
    /// where the box is collapsed on `i` or the ceiling lies above the upper
    /// limit.
    pub open spec fn split_right(self, i: int, value: int) -> Option<BoundsView> {
        if !self.collapsed(i) && self.ub[i] >= ceil_of(value) {
            Some(BoundsView { lb: self.lb.update(i, ceil_of(value) as i64), ub: self.ub })
        } else {
            None
        }
    }
}

/// A box that may be absent admits `z` for variable `i`.
pub open spec fn child_admits(child: Option<BoundsView>, i: int, z: int) -> bool {
    match child {
        Some(b) => b.admits(i, z),
        None => false,
    }
}

/// The two children of a split share out the whole numbers of the parent.
/// Let the box be not collapsed on `i`, and let `value` be not whole, with
/// its floor not above the upper limit and its ceiling not below the lower
/// limit. Then every whole `z` that the parent admits for `i` is admitted by
/// exactly one child, and the children admit no other whole number.
pub proof fn lemma_split_partitions(b: BoundsView, i: int, value: i64, z: int)
    requires
        0 <= i < b.lb.len(),
        i < b.ub.len(),
        b.lb[i] < b.ub[i],
        !is_whole(value as int),
        floor_of(value as int) <= b.ub[i],
        b.lb[i] <= ceil_of(value as int),
        is_whole(z),
    ensures
        b.admits(i, z) <==> (child_admits(b.split_left(i, value as int), i, z) || child_admits(
            b.split_right(i, value as int),
            i,
            z,
        )),
        !(child_admits(b.split_left(i, value as int), i, z) && child_admits(
            b.split_right(i, value as int),
            i,
            z,
        )),
{
    lemma_floor_ceil(value as int);
    lemma_no_whole_between(value as int, z);
    let left = b.split_left(i, value as int);
    let right = b.split_right(i, value as int);
    if left is Some {
        assert(left->0.ub[i] == floor_of(value as int));
        assert(left->0.lb[i] == b.lb[i]);
    }
    if right is Some {
        assert(right->0.lb[i] == ceil_of(value as int));
        assert(right->0.ub[i] == b.ub[i]);
    }
}

/// A split keeps every limit but the one it moves, and keeps a valid box
/// valid.
pub proof fn lemma_split_children(b: BoundsView, i: int, value: i64)
    requires
        0 <= i < b.lb.len(),
        i < b.ub.len(),
    ensures
        match b.split_left(i, value as int) {
            Some(l) => l.lb == b.lb && l.ub.len() == b.ub.len() && l.ub[i] == floor_of(
                value as int,
            ) && (forall|k: int| 0 <= k < b.ub.len() && k != i ==> l.ub[k] == b.ub[k]) && (b.wf()
                ==> l.wf()),
            None => true,
        },
        match b.split_right(i, value as int) {
            Some(r) => r.ub == b.ub && r.lb.len() == b.lb.len() && r.lb[i] == ceil_of(
                value as int,
            ) && (forall|k: int| 0 <= k < b.lb.len() && k != i ==> r.lb[k] == b.lb[k]) && (b.wf()
                ==> r.wf()),
            None => true,
        },
{
    lemma_floor_ceil(value as int);
}

/// A split at a value inside the box narrows the box: where the box is not
/// collapsed on `i` and `value` is not whole and lies between the limits of
/// `i`, each child is strictly narrower along `i` than the parent.
pub proof fn lemma_split_narrows(b: BoundsView, i: int, value: i64)
    requires
        0 <= i < b.lb.len(),
        i < b.ub.len(),
        !is_whole(value as int),
        b.lb[i] <= value <= b.ub[i],
    ensures
        match b.split_left(i, value as int) {
            Some(l) => 0 <= l.length(i) < b.length(i),
            None => true,
        },
        match b.split_right(i, value as int) {
            Some(r) => 0 <= r.length(i) < b.length(i),
            None => true,
        },
{
    lemma_floor_ceil(value as int);
}

impl Bounds {
    /// A copy of the box.
    pub fn duplicate(&self) -> (copy: Bounds)
        ensures
            copy@ == self@,
    {
        let lb = self.lb.clone();
        let ub = self.ub.clone();
        assert(lb@ =~= self.lb@);
        assert(ub@ =~= self.ub@);
        Bounds { lb, ub }
    }

    /// Splits the box along variable `i` at `value`, which is not whole.
    ///
    /// A box that is collapsed on `i` has no children. Otherwise the lower
    /// child takes the floor of `value` as its upper limit and exists where
    /// that floor is not below the lower limit; the upper child takes the
    /// ceiling as its lower limit and exists where that ceiling is not above
    /// the upper limit.
    pub fn split(&self, i: usize, value: i64) -> (children: (Option<Bounds>, Option<Bounds>))
        requires
            i < self.lb.len(),
            i < self.ub.len(),
            !is_whole(value as int),
        ensures
            view_of(children.0) == self@.split_left(i as int, value as int),
            view_of(children.1) == self@.split_right(i as int, value as int),
            self.lb[i as int] == self.ub[i as int] ==> children.0 is None && children.1 is None,
    {
        if self.lb[i] == self.ub[i] {
            return (None, None);
        }
        proof {
            lemma_floor_ceil(value as int);
        }
        let new_left_ub: i128 = floor(value);
        let new_right_lb: i128 = ceil(value);

        let left = if self.lb[i] as i128 <= new_left_ub {
            let mut bounds = self.duplicate();
            bounds.ub.set(i, new_left_ub as i64);
            Some(bounds)
        } else {
            None
        };
        let right = if self.ub[i] as i128 >= new_right_lb {
            let mut bounds = self.duplicate();
            bounds.lb.set(i, new_right_lb as i64);
            Some(bounds)
        } else {
            None
        };

        (left, right)
    }

    /// The width of the box along each variable.
    pub fn lengths(&self) -> (widths: Vec<u64>)
        requires
            self@.wf(),
        ensures
            widths.len() == self@.dim(),
            forall|k: int| 0 <= k < widths.len() ==> widths[k] == self@.length(k),
    {
        let n = self.lb.len();
        let mut widths: Vec<u64> = Vec::new();
        let mut k: usize = 0;
        while k < n
            invariant
                self@.wf(),
                n == self.lb.len(),
                k <= n,
                widths.len() == k,
                forall|j: int| 0 <= j < k ==> widths[j] == self@.length(j),
            decreases n - k,
        {
            let width: u64 = (self.ub[k] as i128 - self.lb[k] as i128) as u64;
            widths.push(width);
            k += 1;
        }
        widths
    }

    /// The sum of the widths of the box over all variables.
    pub fn total_length(&self) -> (total: u128)
        requires
            self@.wf(),
        ensures
            total == self@.total_length(),
    {
        let n = self.lb.len();
        let mut total: u128 = 0;
        let mut k: usize = 0;
        while k < n
            invariant
                self@.wf(),
                n == self.lb.len(),
                k <= n,
                total == sum_of_lengths(self.lb@, self.ub@, k as nat),
                total <= k * 0xffff_ffff_ffff_ffff,
            decreases n - k,
        {
            let width: u128 = (self.ub[k] as i128 - self.lb[k] as i128) as u128;
            assert((k + 1) * 0xffff_ffff_ffff_ffff <= 0xffff_ffff_ffff_ffff
                * 0xffff_ffff_ffff_ffff) by (nonlinear_arith)
                requires
                    k + 1 <= 0xffff_ffff_ffff_ffff,
            ;
            assert((k + 1) * 0xffff_ffff_ffff_ffff == k * 0xffff_ffff_ffff_ffff
                + 0xffff_ffff_ffff_ffff) by (nonlinear_arith);
            total = total + width;
            k += 1;
        }
        total
    }
}

} // verus!
