//! Two-player zero-sum games: equilibrium mixed strategies and the game value,
//! from a payoff matrix given from the row player's side.

use super::simplex::{
    initial_table, is_feasible, is_table, lemma_pivoting_keeps_feasible,
    lemma_solution_of_feasible, pivoting, rhs_column, shape_ok, solution, stays_clear, Simplex,
    SimplexError,
};
use crate::exact::rational::{lemma_real_distributes, lemma_real_regroups, real_max, Rational};
use super::elimination::{
    gaussian_elimination, gaussian_solution, is_regular, is_system,
    lemma_regular_system_is_solved,
};
use crate::exact::vector::{
    is_distribution, lemma_partial_sum_agree, lemma_partial_sum_linear,
    lemma_partial_sum_nonnegative, row_value,
    lemma_scaled_is_distribution, lemma_total_scaled, lemma_unit_is_distribution, partial_sum,
    duplicate_rows, real_rows, reals, scaled_down, sum, total, unit, unit_vector,
};
use vstd::prelude::*;

verus! {

/// Why a game could not be solved.
#[derive(Debug, Clone, Copy, PartialEq, Eq, Structural)]
pub enum GameError {
    /// The matrix has no row or no column.
    EmptyMatrix,
    /// The rows of the matrix differ in length.
    InconsistentRows,
    /// The linear program behind the game could not be solved.
    SolverError(SimplexError),
}

/// The equilibrium of a game.
#[derive(Debug, Clone)]
pub struct GameSolution {
    /// The row player's mixed strategy.
    pub row_strategy: Vec<Rational>,
    /// The column player's mixed strategy.
    pub col_strategy: Vec<Rational>,
    /// The payoff that the row strategy secures against every column.
    pub game_value: Rational,
}

/// What is wrong with the shape of `m`, if anything.
pub open spec fn matrix_fault(m: Seq<Seq<real>>) -> Option<GameError> {
    if m.len() == 0 || m[0].len() == 0 {
        Some(GameError::EmptyMatrix)
    } else if exists|i: int| 0 <= i < m.len() && (#[trigger] m[i]).len() != m[0].len() {
        Some(GameError::InconsistentRows)
    } else {
        None
    }
}

/// `v` is an entry of `m` and no entry is smaller.
pub open spec fn is_least_entry(m: Seq<Seq<real>>, v: real) -> bool {
    &&& exists|i: int, j: int| 0 <= i < m.len() && 0 <= j < m[i].len() && m[i][j] == v
    &&& forall|i: int, j: int| 0 <= i < m.len() && 0 <= j < m[i].len() ==> m[i][j] >= v
}

/// The smallest entry of a matrix that has one.
pub open spec fn least_entry(m: Seq<Seq<real>>) -> real {
    choose|v: real| is_least_entry(m, v)
}

/// The amount that lifts every entry of `m` to `1` or above: `max(0, 1 - min)`.
pub open spec fn positivity_shift(m: Seq<Seq<real>>) -> real {
    real_max(0real, 1real - least_entry(m))
}

/// The matrix `m` with `s` added to every entry.
pub open spec fn shifted(m: Seq<Seq<real>>, s: real) -> Seq<Seq<real>> {
    Seq::new(m.len(), |i: int| Seq::new(m[i].len(), |j: int| m[i][j] + s))
}

/// The vector of `n` ones.
pub open spec fn ones(n: nat) -> Seq<real> {
    Seq::new(n, |i: int| 1real)
}

/// The solution of the column player's program on the positive matrix `a`
/// for a game of `rows` by `cols`: maximize the sum of `z` subject to
/// `a.z <= 1`, `z >= 0`, by at most 1000 pivots.
pub open spec fn column_program(a: Seq<Seq<real>>, rows: nat, cols: nat) -> Result<
    Seq<real>,
    GameError,
> {
    let c = ones(cols);
    let b = ones(rows);
    if !shape_ok(c, a, b) {
        Err(GameError::SolverError(SimplexError::InvalidDimensions))
    } else {
        match pivoting(initial_table(c, a, b), 1000) {
            Ok(t) => Ok(solution(t, cols)),
            Err(e) => Err(GameError::SolverError(e)),
        }
    }
}

/// The vector `z` divided by the sum of its entries.
pub open spec fn normalized(z: Seq<real>) -> Seq<real> {
    scaled_down(z, total(z))
}

/// The column player's strategy read off the program's solution `z`; there
/// is none where the entries of `z` sum to zero.
pub open spec fn column_strategy(z: Seq<real>) -> Result<Seq<real>, GameError> {
    if total(z) == 0real {
        Err(GameError::SolverError(SimplexError::Infeasible))
    } else {
        Ok(normalized(z))
    }
}

/// The payoff of the mixed row strategy `p` against the pure column `j`.
pub open spec fn column_payoff(a: Seq<Seq<real>>, p: Seq<real>, j: int) -> real {
    total(Seq::new(a.len(), |i: int| p[i] * a[i][j]))
}

/// The payoff of the pure row `i` against the mixed column strategy `q`.
pub open spec fn row_payoff(a: Seq<Seq<real>>, q: Seq<real>, i: int) -> real {
    total(Seq::new(a[i].len(), |j: int| q[j] * a[i][j]))
}

/// The expected payoff of `p` against `q`: the sum over all `i`, `j` of
/// `p[i] * q[j] * a[i][j]`.
pub open spec fn expected(a: Seq<Seq<real>>, p: Seq<real>, q: Seq<real>) -> real {
    total(Seq::new(a.len(), |i: int| total(Seq::new(a[i].len(), |j: int| p[i] * q[j] * a[i][j]))))
}

/// `v` is the least payoff of `p` over the pure columns of `a`.
pub open spec fn is_security_level(a: Seq<Seq<real>>, p: Seq<real>, v: real) -> bool {
    &&& exists|j: int| 0 <= j < a[0].len() && column_payoff(a, p, j) == v
    &&& forall|j: int| 0 <= j < a[0].len() ==> column_payoff(a, p, j) >= v
}

/// The payoff that `p` secures whatever column is played.
pub open spec fn security_level(a: Seq<Seq<real>>, p: Seq<real>) -> real {
    choose|v: real| is_security_level(a, p, v)
}

/// The level above which an entry of the program's solution counts as
/// played: `1e-9`.
pub open spec fn activity_floor() -> real {
    1real / 1000000000real
}

/// The total below which a clamped strategy counts as collapsed: `1e-10`.
pub open spec fn mass_floor() -> real {
    1real / 10000000000real
}

/// The columns among the first `n` that the solution `z` plays, ascending.
pub open spec fn active_columns(z: Seq<real>, n: nat) -> Seq<int>
    decreases n,
{
    if n == 0 {
        Seq::empty()
    } else {
        let rest = active_columns(z, (n - 1) as nat);
        if z[n - 1] > activity_floor() {
            rest.push(n - 1)
        } else {
            rest
        }
    }
}

/// Row `i` is the best response to column `j`: the first of the rows whose
/// payoff against `j` is largest.
pub open spec fn is_best_response(a: Seq<Seq<real>>, j: int, i: int) -> bool {
    &&& 0 <= i < a.len()
    &&& forall|r: int| 0 <= r < a.len() ==> a[i][j] >= #[trigger] a[r][j]
    &&& forall|r: int| 0 <= r < i ==> a[i][j] > #[trigger] a[r][j]
}

/// The best response to column `j`.
pub open spec fn best_response(a: Seq<Seq<real>>, j: int) -> int {
    choose|i: int| is_best_response(a, j, i)
}

/// The equations that make the column player indifferent among the active
/// columns: for each active column after the first, the payoffs against it
/// and against the first are equal; and the probabilities sum to one.
pub open spec fn indifference_rows(a: Seq<Seq<real>>, active: Seq<int>) -> Seq<Seq<real>> {
    Seq::new(
        active.len(),
        |k: int|
            if k < active.len() - 1 {
                Seq::new(a.len(), |i: int| a[i][active[0]] - a[i][active[k + 1]])
            } else {
                ones(a.len())
            },
    )
}

/// The right-hand side of the indifference equations.
pub open spec fn indifference_rhs(m: nat) -> Seq<real> {
    Seq::new(m, |k: int| if k < m - 1 { 0real } else { 1real })
}

/// The vector `x` with its negative entries replaced by zero.
pub open spec fn clamped(x: Seq<real>) -> Seq<real> {
    Seq::new(x.len(), |i: int| real_max(x[i], 0real))
}

/// The strategy read off the solution `x` of the indifference equations:
/// clamped at zero and scaled to sum to one; none where the clamped entries
/// sum to less than the mass floor.
pub open spec fn strategy_from(x: Seq<real>) -> Result<Seq<real>, GameError> {
    let y = clamped(x);
    if total(y) < mass_floor() {
        Err(GameError::SolverError(SimplexError::Infeasible))
    } else {
        Ok(normalized(y))
    }
}

/// The row strategy that makes the column player indifferent among the
/// columns `active` of `a`.
pub open spec fn indifference_strategy(a: Seq<Seq<real>>, active: Seq<int>) -> Result<
    Seq<real>,
    GameError,
> {
    strategy_from(
        gaussian_solution(
            indifference_rows(a, active),
            indifference_rhs(active.len()),
            a.len() as int,
        ),
    )
}

/// The row player's strategy on the positive matrix `a`, given the solution
/// `z` of the column program: none where `z` plays no column, the best
/// response where it plays one, the indifference strategy otherwise.
pub open spec fn row_strategy_for(a: Seq<Seq<real>>, z: Seq<real>) -> Result<
    Seq<real>,
    GameError,
> {
    let active = active_columns(z, z.len());
    if active.len() == 0 {
        Err(GameError::SolverError(SimplexError::Infeasible))
    } else if active.len() == 1 {
        Ok(unit_vector(a.len(), best_response(a, active[0])))
    } else {
        indifference_strategy(a, active)
    }
}

/// The equilibrium of the game `a`: the row strategy, the column strategy
/// and the game value, or the reason why there is none.
pub open spec fn equilibrium(a: Seq<Seq<real>>) -> Result<(Seq<real>, Seq<real>, real), GameError> {
    let s = shifted(a, positivity_shift(a));
    match column_program(s, a.len(), a[0].len()) {
        Err(e) => Err(e),
        Ok(z) => match row_strategy_for(s, z) {
            Err(e) => Err(e),
            Ok(p) => match column_strategy(z) {
                Err(e) => Err(e),
                Ok(q) => Ok((p, q, security_level(a, p))),
            },
        },
    }
}

/// A column has at most one best response.
pub proof fn lemma_best_response_unique(a: Seq<Seq<real>>, j: int, i: int)
    requires
        is_best_response(a, j, i),
    ensures
        best_response(a, j) == i,
{
    let k = best_response(a, j);
    assert(is_best_response(a, j, k));
    if k < i {
        assert(a[i][j] > a[k][j]);
        assert(a[k][j] >= a[i][j]);
    } else if i < k {
        assert(a[k][j] > a[i][j]);
        assert(a[i][j] >= a[k][j]);
    }
}

/// A strategy read off a solution is a distribution.
pub proof fn lemma_strategy_from_is_distribution(x: Seq<real>)
    requires
        strategy_from(x) is Ok,
    ensures
        is_distribution(strategy_from(x)->Ok_0),
{
    let y = clamped(x);
    assert(mass_floor() > 0real);
    lemma_scaled_is_distribution(y);
}

/// Where the indifference equations are as many as the rows, every column
/// of them has a pivot above the floor, and their solution has no negative
/// entry, the indifference strategy is that solution, it is a probability
/// distribution, and every active column pays the same against it.
pub proof fn lemma_indifference_equalizes(a: Seq<Seq<real>>, active: Seq<int>)
    requires
        active.len() == a.len(),
        active.len() >= 1,
        is_regular(
            indifference_rows(a, active),
            indifference_rhs(active.len()),
            a.len() as int,
            a.len(),
        ),
        forall|i: int|
            0 <= i < a.len() ==> gaussian_solution(
                indifference_rows(a, active),
                indifference_rhs(active.len()),
                a.len() as int,
            )[i] >= 0real,
    ensures
        indifference_strategy(a, active) == Ok::<Seq<real>, GameError>(
            gaussian_solution(
                indifference_rows(a, active),
                indifference_rhs(active.len()),
                a.len() as int,
            ),
        ),
        is_distribution(indifference_strategy(a, active)->Ok_0),
        forall|k: int|
            0 <= k < active.len() ==> column_payoff(
                a,
                indifference_strategy(a, active)->Ok_0,
                #[trigger] active[k],
            ) == column_payoff(a, indifference_strategy(a, active)->Ok_0, active[0]),
{
    let n = a.len();
    let rows = indifference_rows(a, active);
    let rhs = indifference_rhs(active.len());
    let x = gaussian_solution(rows, rhs, n as int);
    assert(is_system(rows, rhs, n as int)) by {
        assert forall|i: int| 0 <= i < rows.len() implies (#[trigger] rows[i]).len() >= n by {}
    }
    lemma_regular_system_is_solved(rows, rhs, n);
    // The last equation says that the solution sums to one.
    let last = n - 1;
    assert(row_value(rows[last], x, n) == rhs[last]);
    let unit_terms = Seq::new(n, |j: int| rows[last][j] * x[j]);
    assert forall|j: int| 0 <= j < n implies unit_terms[j] == x[j] by {
        let w = x[j];
        assert(1real * w == w) by (nonlinear_arith);
    }
    lemma_partial_sum_agree(unit_terms, x, n);
    assert(total(x) == 1real);
    assert(clamped(x) =~= x);
    assert(1real > mass_floor());
    assert(scaled_down(x, 1real) =~= x) by {
        assert forall|i: int| 0 <= i < n implies scaled_down(x, 1real)[i] == x[i] by {
            let w = x[i];
            assert(w / 1real == w) by (nonlinear_arith);
        }
    }
    // Each other equation says that two active columns pay the same.
    assert forall|k: int| 0 <= k < active.len() implies column_payoff(a, x, #[trigger] active[k])
        == column_payoff(a, x, active[0]) by {
        if k > 0 {
            let e = k - 1;
            assert(row_value(rows[e], x, n) == rhs[e]);
            let terms = Seq::new(n, |j: int| rows[e][j] * x[j]);
            let first = Seq::new(n, |i: int| x[i] * a[i][active[0]]);
            let other = Seq::new(n, |i: int| x[i] * a[i][active[k]]);
            assert forall|i: int| 0 <= i < n implies terms[i] == 1real * first[i] + (-1real)
                * other[i] by {
                let (u, v, w) = (a[i][active[0]], a[i][active[k]], x[i]);
                assert((u - v) * w == 1real * (w * u) + (-1real) * (w * v)) by (nonlinear_arith);
            }
            lemma_partial_sum_linear(first, other, terms, 1real, -1real, n);
            let (f, o) = (partial_sum(first, n), partial_sum(other, n));
            assert(1real * f + (-1real) * o == f - o) by (nonlinear_arith);
        }
    }
}

/// The vector `s * u + t * v`, as long as `u`.
pub open spec fn combined(u: Seq<real>, v: Seq<real>, s: real, t: real) -> Seq<real> {
    Seq::new(u.len(), |i: int| s * u[i] + t * v[i])
}

/// The expected payoff is linear in the row strategy.
pub proof fn lemma_expected_linear_in_rows(
    a: Seq<Seq<real>>,
    first: Seq<real>,
    second: Seq<real>,
    q: Seq<real>,
    s: real,
    t: real,
)
    requires
        first.len() >= a.len(),
    ensures
        expected(a, combined(first, second, s, t), q) == s * expected(a, first, q) + t * expected(a, second, q),
{
    let p = combined(first, second, s, t);
    let outer = Seq::new(
        a.len(),
        |i: int| total(Seq::new(a[i].len(), |j: int| p[i] * q[j] * a[i][j])),
    );
    let outer_first = Seq::new(
        a.len(),
        |i: int| total(Seq::new(a[i].len(), |j: int| first[i] * q[j] * a[i][j])),
    );
    let outer_second = Seq::new(
        a.len(),
        |i: int| total(Seq::new(a[i].len(), |j: int| second[i] * q[j] * a[i][j])),
    );
    assert forall|i: int| 0 <= i < a.len() implies outer[i] == s * outer_first[i] + t * outer_second[i] by {
        let inner = Seq::new(a[i].len(), |j: int| p[i] * q[j] * a[i][j]);
        let inner_first = Seq::new(a[i].len(), |j: int| first[i] * q[j] * a[i][j]);
        let inner_second = Seq::new(a[i].len(), |j: int| second[i] * q[j] * a[i][j]);
        assert forall|j: int| 0 <= j < a[i].len() implies inner[j] == s * inner_first[j] + t
            * inner_second[j] by {
            let (x, y, u, v) = (first[i], second[i], q[j], a[i][j]);
            lemma_real_distributes(s * x, t * y, u);
            lemma_real_distributes((s * x) * u, (t * y) * u, v);
            lemma_real_regroups(s, x, u);
            lemma_real_regroups(s, x * u, v);
            lemma_real_regroups(t, y, u);
            lemma_real_regroups(t, y * u, v);
        }
        lemma_partial_sum_linear(inner_first, inner_second, inner, s, t, a[i].len());
    }
    lemma_partial_sum_linear(outer_first, outer_second, outer, s, t, a.len());
}

/// The expected payoff is linear in the column strategy.
pub proof fn lemma_expected_linear_in_columns(
    a: Seq<Seq<real>>,
    p: Seq<real>,
    left: Seq<real>,
    right: Seq<real>,
    s: real,
    t: real,
)
    requires
        forall|i: int| 0 <= i < a.len() ==> left.len() >= (#[trigger] a[i]).len(),
    ensures
        expected(a, p, combined(left, right, s, t)) == s * expected(a, p, left) + t * expected(a, p, right),
{
    let q = combined(left, right, s, t);
    let outer = Seq::new(
        a.len(),
        |i: int| total(Seq::new(a[i].len(), |j: int| p[i] * q[j] * a[i][j])),
    );
    let outer_first = Seq::new(
        a.len(),
        |i: int| total(Seq::new(a[i].len(), |j: int| p[i] * left[j] * a[i][j])),
    );
    let outer_second = Seq::new(
        a.len(),
        |i: int| total(Seq::new(a[i].len(), |j: int| p[i] * right[j] * a[i][j])),
    );
    assert forall|i: int| 0 <= i < a.len() implies outer[i] == s * outer_first[i] + t * outer_second[i] by {
        let inner = Seq::new(a[i].len(), |j: int| p[i] * q[j] * a[i][j]);
        let inner_first = Seq::new(a[i].len(), |j: int| p[i] * left[j] * a[i][j]);
        let inner_second = Seq::new(a[i].len(), |j: int| p[i] * right[j] * a[i][j]);
        assert(left.len() >= a[i].len());
        assert forall|j: int| 0 <= j < a[i].len() implies inner[j] == s * inner_first[j] + t
            * inner_second[j] by {
            let (x, y, u, v) = (left[j], right[j], p[i], a[i][j]);
            lemma_real_distributes(s * x, t * y, u);
            lemma_real_distributes(u * (s * x), u * (t * y), v);
            lemma_real_regroups(s, x, u);
            lemma_real_regroups(u, s * x, 1real);
            lemma_real_regroups(s, u * x, v);
            lemma_real_regroups(u, x, 1real);
            lemma_real_regroups(t, y, u);
            lemma_real_regroups(u, t * y, 1real);
            lemma_real_regroups(t, u * y, v);
            lemma_real_regroups(u, y, 1real);
        }
        lemma_partial_sum_linear(inner_first, inner_second, inner, s, t, a[i].len());
    }
    lemma_partial_sum_linear(outer_first, outer_second, outer, s, t, a.len());
}

/// The tableau of the column player's program for the game `a`, after the
/// positivity shift.
pub open spec fn column_table(a: Seq<Seq<real>>) -> Seq<Seq<real>> {
    initial_table(ones(a[0].len()), shifted(a, positivity_shift(a)), ones(a.len()))
}

/// The column strategy is a probability distribution where the column
/// program is solved without meeting, in an entering column, a positive
/// entry within the tolerance. Such an entry is left out of the ratio
/// test, and only then can a right-hand side turn negative.
pub proof fn lemma_column_strategy_is_distribution(a: Seq<Seq<real>>, rows: nat, cols: nat)
    requires
        shape_ok(ones(cols), a, ones(rows)),
        stays_clear(initial_table(ones(cols), a, ones(rows)), 1000),
        column_program(a, rows, cols) is Ok,
        column_strategy(column_program(a, rows, cols)->Ok_0) is Ok,
    ensures
        is_distribution(column_strategy(column_program(a, rows, cols)->Ok_0)->Ok_0),
{
    let c = ones(cols);
    let b = ones(rows);
    let start = initial_table(c, a, b);
    assert(is_table(start));
    assert(is_feasible(start)) by {
        assert forall|i: int| 0 <= i < start.len() - 1 implies (#[trigger] start[i])[rhs_column(
            start,
        )] >= 0real by {
            assert(start[i][rhs_column(start)] == b[i]);
        }
    }
    lemma_pivoting_keeps_feasible(start, 1000);
    let last = pivoting(start, 1000)->Ok_0;
    lemma_solution_of_feasible(last, cols);
    let z = solution(last, cols);
    lemma_partial_sum_nonnegative(z, z.len());
    lemma_scaled_is_distribution(z);
}

/// A matrix has at most one least entry.
pub proof fn lemma_least_entry_unique(m: Seq<Seq<real>>, v: real)
    requires
        is_least_entry(m, v),
    ensures
        least_entry(m) == v,
{
    let w = least_entry(m);
    assert(is_least_entry(m, w));
}

/// A strategy has at most one security level.
pub proof fn lemma_security_level_unique(a: Seq<Seq<real>>, p: Seq<real>, v: real)
    requires
        is_security_level(a, p, v),
    ensures
        security_level(a, p) == v,
{
    let w = security_level(a, p);
    assert(is_security_level(a, p, w));
}

/// A zero-sum game, given by the row player's payoffs.
#[derive(Debug)]
pub struct GameSolver {
    payoff_matrix: Vec<Vec<Rational>>,
    num_rows: usize,
    num_cols: usize,
}

impl GameSolver {
    /// The matrix has a row and a column, and its rows are equally long.
    #[verifier::type_invariant]
    spec fn well_formed(&self) -> bool {
        &&& self.num_rows >= 1
        &&& self.num_cols >= 1
        &&& self.payoff_matrix@.len() == self.num_rows
        &&& forall|i: int|
            0 <= i < self.payoff_matrix@.len() ==> (#[trigger] self.payoff_matrix@[i])@.len()
                == self.num_cols
    }

    /// The payoff matrix as rows of reals.
    pub closed spec fn payoffs(&self) -> Seq<Seq<real>> {
        real_rows(self.payoff_matrix@)
    }

    /// A game with the given payoffs. Fails exactly when the matrix has no
    /// row, no column, or rows of unequal length.
    pub fn new(payoff_matrix: Vec<Vec<Rational>>) -> (r: Result<GameSolver, GameError>)
        ensures
            r is Ok ==> matrix_fault(real_rows(payoff_matrix@)) is None && (r->Ok_0).payoffs()
                == real_rows(payoff_matrix@),
            r is Err ==> matrix_fault(real_rows(payoff_matrix@)) == Some(r->Err_0),
    {
        let ghost m = real_rows(payoff_matrix@);
        if payoff_matrix.len() == 0 {
            return Err(GameError::EmptyMatrix);
        }
        let num_rows = payoff_matrix.len();
        let num_cols = payoff_matrix[0].len();
        assert(m[0].len() == num_cols);
        if num_cols == 0 {
            return Err(GameError::EmptyMatrix);
        }
        let mut k: usize = 0;
        while k < num_rows
            invariant
                k <= num_rows,
                num_rows == payoff_matrix.len(),
                num_rows >= 1,
                num_cols >= 1,
                num_cols == payoff_matrix@[0]@.len(),
                m == real_rows(payoff_matrix@),
                forall|i: int| 0 <= i < k ==> (#[trigger] payoff_matrix@[i])@.len() == num_cols,
            decreases num_rows - k,
        {
            if payoff_matrix[k].len() != num_cols {
                assert(m[k as int].len() != m[0].len());
                return Err(GameError::InconsistentRows);
            }
            k += 1;
        }
        proof {
            assert forall|i: int| 0 <= i < m.len() implies (#[trigger] m[i]).len() == m[0].len() by {
                assert(payoff_matrix@[i]@.len() == num_cols);
            }
        }
        Ok(GameSolver { payoff_matrix, num_rows, num_cols })
    }

    /// The payoff matrix.
    pub fn payoff_matrix(&self) -> (r: &Vec<Vec<Rational>>)
        ensures
            real_rows(r@) == self.payoffs(),
            matrix_fault(real_rows(r@)) is None,
    {
        proof {
            use_type_invariant(self);
            let m = real_rows(self.payoff_matrix@);
            assert forall|i: int| 0 <= i < m.len() implies (#[trigger] m[i]).len() == m[0].len() by {
                assert(self.payoff_matrix@[i]@.len() == self.num_cols);
                assert(self.payoff_matrix@[0]@.len() == self.num_cols);
            }
        }
        &self.payoff_matrix
    }

    /// The shift that makes every payoff at least `1`.
    pub fn calculate_shift(&self) -> (r: Rational)
        ensures
            r@ == positivity_shift(self.payoffs()),
            r@ >= 0real,
    {
        proof {
            use_type_invariant(self);
        }
        let ghost m = self.payoffs();
        let mut least = self.payoff_matrix[0][0].clone();
        let ghost mut at: (int, int) = (0, 0);
        assert(m[0][0] == self.payoff_matrix@[0]@[0]@);
        let mut i: usize = 0;
        while i < self.num_rows
            invariant
                i <= self.num_rows,
                self.well_formed(),
                m == self.payoffs(),
                0 <= at.0 < m.len() && 0 <= at.1 < m[at.0].len() && m[at.0][at.1] == least@,
                forall|p: int, q: int| 0 <= p < i && 0 <= q < m[p].len() ==> m[p][q] >= least@,
            decreases self.num_rows - i,
        {
            let mut j: usize = 0;
            while j < self.num_cols
                invariant
                    j <= self.num_cols,
                    i < self.num_rows,
                    self.well_formed(),
                    m == self.payoffs(),
                    0 <= at.0 < m.len() && 0 <= at.1 < m[at.0].len() && m[at.0][at.1] == least@,
                    forall|p: int, q: int| 0 <= p < i && 0 <= q < m[p].len() ==> m[p][q] >= least@,
                    forall|q: int| 0 <= q < j ==> m[i as int][q] >= least@,
                decreases self.num_cols - j,
            {
                assert(m[i as int][j as int] == self.payoff_matrix@[i as int]@[j as int]@);
                if self.payoff_matrix[i][j].lt(&least) {
                    least = self.payoff_matrix[i][j].clone();
                    proof {
                        at = (i as int, j as int);
                    }
                }
                j += 1;
            }
            i += 1;
        }
        proof {
            assert(is_least_entry(m, least@));
            lemma_least_entry_unique(m, least@);
        }
        let lift = Rational::one().sub(&least);
        if lift.is_positive() {
            lift
        } else {
            Rational::zero()
        }
    }

    /// The payoff matrix with `shift` added to every entry.
    pub fn shift_matrix(&self, shift: &Rational) -> (r: Vec<Vec<Rational>>)
        ensures
            real_rows(r@) == shifted(self.payoffs(), shift@),
    {
        proof {
            use_type_invariant(self);
        }
        let ghost m = self.payoffs();
        let mut out: Vec<Vec<Rational>> = Vec::new();
        let mut i: usize = 0;
        while i < self.num_rows
            invariant
                i <= self.num_rows,
                self.well_formed(),
                m == self.payoffs(),
                out.len() == i,
                forall|p: int| 0 <= p < i ==> (#[trigger] out@[p])@.len() == self.num_cols,
                forall|p: int, q: int|
                    0 <= p < i && 0 <= q < self.num_cols ==> (#[trigger] out@[p]@[q])@ == m[p][q]
                        + shift@,
            decreases self.num_rows - i,
        {
            let mut row: Vec<Rational> = Vec::new();
            let mut j: usize = 0;
            while j < self.num_cols
                invariant
                    j <= self.num_cols,
                    i < self.num_rows,
                    self.well_formed(),
                    m == self.payoffs(),
                    row.len() == j,
                    forall|q: int| 0 <= q < j ==> (#[trigger] row@[q])@ == m[i as int][q] + shift@,
                decreases self.num_cols - j,
            {
                assert(m[i as int][j as int] == self.payoff_matrix@[i as int]@[j as int]@);
                row.push(self.payoff_matrix[i][j].add(shift));
                j += 1;
            }
            out.push(row);
            i += 1;
        }
        assert(real_rows(out@) =~~= shifted(m, shift@));
        out
    }

    /// The number of pure strategies of the row player.
    pub open spec fn rows(&self) -> nat {
        self.payoffs().len()
    }

    /// The number of pure strategies of the column player.
    pub open spec fn cols(&self) -> nat {
        self.payoffs()[0].len()
    }

    /// A vector of `n` ones.
    fn ones_vector(n: usize) -> (r: Vec<Rational>)
        ensures
            reals(r@) == ones(n as nat),
    {
        let mut out: Vec<Rational> = Vec::new();
        let mut i: usize = 0;
        while i < n
            invariant
                i <= n,
                out.len() == i,
                forall|k: int| 0 <= k < i ==> (#[trigger] out@[k])@ == 1real,
            decreases n - i,
        {
            out.push(Rational::one());
            i += 1;
        }
        assert(reals(out@) =~= ones(n as nat));
        out
    }

    /// Solves the column player's program on `matrix` and returns its raw
    /// solution.
    pub fn solve_col_player_internal(&self, matrix: &[Vec<Rational>]) -> (r: Result<
        Vec<Rational>,
        GameError,
    >)
        ensures
            r is Ok ==> column_program(real_rows(matrix@), self.rows(), self.cols()) == Ok::<
                Seq<real>,
                GameError,
            >(reals((r->Ok_0)@)),
            r is Err ==> column_program(real_rows(matrix@), self.rows(), self.cols()) == Err::<
                Seq<real>,
                GameError,
            >(r->Err_0),
    {
        proof {
            use_type_invariant(self);
            assert(self.payoff_matrix@[0]@.len() == self.num_cols);
        }
        let c = GameSolver::ones_vector(self.num_cols);
        let b = GameSolver::ones_vector(self.num_rows);
        let mut program = match Simplex::new(c.as_slice(), matrix, b.as_slice()) {
            Ok(p) => p,
            Err(e) => {
                return Err(GameError::SolverError(e));
            },
        };
        match program.solve() {
            Ok((_, z)) => Ok(z),
            Err(e) => Err(GameError::SolverError(e)),
        }
    }

    /// The vector `z` scaled so that its entries sum to one. Fails as
    /// infeasible exactly when they sum to zero.
    pub fn normalize_solution(z: &[Rational]) -> (r: Result<Vec<Rational>, GameError>)
        ensures
            r is Ok ==> column_strategy(reals(z@)) == Ok::<Seq<real>, GameError>(reals((r->Ok_0)@)),
            r is Err ==> column_strategy(reals(z@)) == Err::<Seq<real>, GameError>(r->Err_0),
    {
        let s = sum(z);
        if s.is_zero() {
            return Err(GameError::SolverError(SimplexError::Infeasible));
        }
        let mut out: Vec<Rational> = Vec::new();
        let mut j: usize = 0;
        while j < z.len()
            invariant
                j <= z.len(),
                s@ == total(reals(z@)),
                s@ != 0real,
                out.len() == j,
                forall|k: int| 0 <= k < j ==> (#[trigger] out@[k])@ == reals(z@)[k] / s@,
            decreases z.len() - j,
        {
            assert(reals(z@)[j as int] == z@[j as int]@);
            out.push(z[j].div(&s));
            j += 1;
        }
        assert(reals(out@) =~= normalized(reals(z@)));
        Ok(out)
    }

    /// The column player's equilibrium strategy on the positive matrix
    /// `matrix`: the solution of the column program, scaled to sum to one.
    pub fn solve_col_player(&self, matrix: &[Vec<Rational>]) -> (r: Result<Vec<Rational>, GameError>)
        ensures
            match column_program(real_rows(matrix@), self.rows(), self.cols()) {
                Ok(z) => {
                    &&& r is Ok ==> column_strategy(z) == Ok::<Seq<real>, GameError>(
                        reals((r->Ok_0)@),
                    )
                    &&& r is Err ==> column_strategy(z) == Err::<Seq<real>, GameError>(r->Err_0)
                },
                Err(e) => r == Err::<Vec<Rational>, GameError>(e),
            },
    {
        match self.solve_col_player_internal(matrix) {
            Ok(z) => GameSolver::normalize_solution(z.as_slice()),
            Err(e) => Err(e),
        }
    }

    /// The payoff of `row_strategy` against the pure column `j`.
    fn payoff_against_column(&self, row_strategy: &[Rational], j: usize) -> (r: Rational)
        requires
            row_strategy.len() >= self.rows(),
            j < self.cols(),
        ensures
            r@ == column_payoff(self.payoffs(), reals(row_strategy@), j as int),
    {
        proof {
            use_type_invariant(self);
            assert(self.payoff_matrix@[0]@.len() == self.num_cols);
        }
        let ghost a = self.payoffs();
        let ghost p = reals(row_strategy@);
        let ghost terms = Seq::new(a.len(), |i: int| p[i] * a[i][j as int]);
        let mut acc = Rational::zero();
        let mut i: usize = 0;
        while i < self.num_rows
            invariant
                i <= self.num_rows,
                self.well_formed(),
                row_strategy.len() >= self.num_rows,
                j < self.num_cols,
                a == self.payoffs(),
                p == reals(row_strategy@),
                terms == Seq::new(a.len(), |i: int| p[i] * a[i][j as int]),
                acc@ == partial_sum(terms, i as nat),
            decreases self.num_rows - i,
        {
            assert(a[i as int][j as int] == self.payoff_matrix@[i as int]@[j as int]@);
            assert(p[i as int] == row_strategy@[i as int]@);
            assert(terms[i as int] == p[i as int] * a[i as int][j as int]);
            let term = row_strategy[i].mul(&self.payoff_matrix[i][j]);
            acc = acc.add(&term);
            i += 1;
        }
        acc
    }

    /// The game value that `row_strategy` secures: its least payoff over
    /// the pure columns.
    pub fn calculate_game_value(&self, row_strategy: &[Rational]) -> (r: Rational)
        requires
            row_strategy.len() >= self.rows(),
        ensures
            r@ == security_level(self.payoffs(), reals(row_strategy@)),
            is_security_level(self.payoffs(), reals(row_strategy@), r@),
    {
        proof {
            use_type_invariant(self);
            assert(self.payoff_matrix@[0]@.len() == self.num_cols);
        }
        let ghost a = self.payoffs();
        let ghost p = reals(row_strategy@);
        let mut least = self.payoff_against_column(row_strategy, 0);
        let ghost mut at: int = 0;
        let mut j: usize = 1;
        while j < self.num_cols
            invariant
                1 <= j <= self.num_cols,
                self.well_formed(),
                self.num_cols == self.cols(),
                row_strategy.len() >= self.rows(),
                a == self.payoffs(),
                p == reals(row_strategy@),
                0 <= at < j,
                least@ == column_payoff(a, p, at),
                forall|k: int| 0 <= k < j ==> column_payoff(a, p, k) >= least@,
            decreases self.num_cols - j,
        {
            let v = self.payoff_against_column(row_strategy, j);
            if v.lt(&least) {
                least = v;
                proof {
                    at = j as int;
                }
            }
            j += 1;
        }
        proof {
            assert(is_security_level(a, p, least@));
            lemma_security_level_unique(a, p, least@);
        }
        least
    }

    /// The expected payoff to the row player when the players mix by
    /// `row_strategy` and `col_strategy`.
    pub fn expected_payoff(&self, row_strategy: &[Rational], col_strategy: &[Rational]) -> (r:
        Rational)
        requires
            row_strategy.len() >= self.rows(),
            col_strategy.len() >= self.cols(),
        ensures
            r@ == expected(self.payoffs(), reals(row_strategy@), reals(col_strategy@)),
    {
        proof {
            use_type_invariant(self);
            assert(self.payoff_matrix@[0]@.len() == self.num_cols);
        }
        let ghost a = self.payoffs();
        let ghost p = reals(row_strategy@);
        let ghost q = reals(col_strategy@);
        let ghost outer = Seq::new(
            a.len(),
            |i: int| total(Seq::new(a[i].len(), |j: int| p[i] * q[j] * a[i][j])),
        );
        let mut payoff = Rational::zero();
        let mut i: usize = 0;
        while i < self.num_rows
            invariant
                i <= self.num_rows,
                self.well_formed(),
                row_strategy.len() >= self.num_rows,
                col_strategy.len() >= self.num_cols,
                a == self.payoffs(),
                p == reals(row_strategy@),
                q == reals(col_strategy@),
                outer == Seq::new(
                    a.len(),
                    |i: int| total(Seq::new(a[i].len(), |j: int| p[i] * q[j] * a[i][j])),
                ),
                payoff@ == partial_sum(outer, i as nat),
            decreases self.num_rows - i,
        {
            let ghost inner = Seq::new(
                a[i as int].len(),
                |j: int| p[i as int] * q[j] * a[i as int][j],
            );
            let ghost before = payoff@;
            let mut line = Rational::zero();
            let mut j: usize = 0;
            while j < self.num_cols
                invariant
                    j <= self.num_cols,
                    i < self.num_rows,
                    self.well_formed(),
                    row_strategy.len() >= self.num_rows,
                    col_strategy.len() >= self.num_cols,
                    a == self.payoffs(),
                    p == reals(row_strategy@),
                    q == reals(col_strategy@),
                    inner == Seq::new(
                        a[i as int].len(),
                        |j: int| p[i as int] * q[j] * a[i as int][j],
                    ),
                    line@ == partial_sum(inner, j as nat),
                decreases self.num_cols - j,
            {
                assert(a[i as int][j as int] == self.payoff_matrix@[i as int]@[j as int]@);
                assert(p[i as int] == row_strategy@[i as int]@);
                assert(q[j as int] == col_strategy@[j as int]@);
                assert(inner[j as int] == p[i as int] * q[j as int] * a[i as int][j as int]);
                let term = row_strategy[i].mul(&col_strategy[j]).mul(&self.payoff_matrix[i][j]);
                line = line.add(&term);
                j += 1;
            }
            proof {
                assert(a[i as int].len() == self.num_cols);
                assert(outer[i as int] == total(inner));
            }
            payoff = payoff.add(&line);
            i += 1;
        }
        payoff
    }

    /// The columns that the solution `z` plays, ascending.
    pub fn active_columns_of(z: &[Rational]) -> (r: Vec<usize>)
        ensures
            r.len() == active_columns(reals(z@), z.len() as nat).len(),
            forall|k: int|
                0 <= k < r.len() ==> (#[trigger] r@[k]) as int == active_columns(
                    reals(z@),
                    z.len() as nat,
                )[k],
            forall|k: int| 0 <= k < r.len() ==> (#[trigger] r@[k]) < z.len(),
    {
        let ghost zv = reals(z@);
        let floor = Rational::one().div(&Rational::from_int(1_000_000_000));
        let mut out: Vec<usize> = Vec::new();
        let mut j: usize = 0;
        while j < z.len()
            invariant
                j <= z.len(),
                zv == reals(z@),
                floor@ == activity_floor(),
                out.len() == active_columns(zv, j as nat).len(),
                forall|k: int|
                    0 <= k < out.len() ==> (#[trigger] out@[k]) as int == active_columns(
                        zv,
                        j as nat,
                    )[k],
                forall|k: int| 0 <= k < out.len() ==> (#[trigger] out@[k]) < j,
            decreases z.len() - j,
        {
            assert(zv[j as int] == z@[j as int]@);
            if z[j].gt(&floor) {
                out.push(j);
            }
            j += 1;
        }
        out
    }

    /// The best response to column `j` of `matrix`: the first row of
    /// largest payoff against it.
    fn best_response_to(&self, matrix: &[Vec<Rational>], j: usize) -> (r: usize)
        requires
            matrix.len() == self.rows(),
            forall|i: int| 0 <= i < matrix.len() ==> (#[trigger] matrix@[i])@.len() == self.cols(),
            j < self.cols(),
        ensures
            is_best_response(real_rows(matrix@), j as int, r as int),
            r < self.rows(),
    {
        proof {
            use_type_invariant(self);
            assert(self.payoff_matrix@[0]@.len() == self.num_cols);
        }
        let ghost a = real_rows(matrix@);
        let mut best: usize = 0;
        let mut i: usize = 1;
        while i < matrix.len()
            invariant
                1 <= i <= matrix.len(),
                a == real_rows(matrix@),
                forall|i: int| 0 <= i < matrix.len() ==> (#[trigger] matrix@[i])@.len() > j,
                0 <= best < i,
                forall|r: int| 0 <= r < i ==> a[best as int][j as int] >= #[trigger] a[r][j as int],
                forall|r: int| 0 <= r < best ==> a[best as int][j as int] > #[trigger] a[r][j as int],
            decreases matrix.len() - i,
        {
            assert(a[i as int][j as int] == matrix@[i as int]@[j as int]@);
            assert(a[best as int][j as int] == matrix@[best as int]@[j as int]@);
            if matrix[i][j].gt(&matrix[best][j]) {
                best = i;
            }
            i += 1;
        }
        best
    }

    /// The strategy read off the solution `x` of the indifference
    /// equations: negative entries become zero and the rest is scaled to sum
    /// to one. Fails as infeasible exactly when the clamped entries sum to
    /// less than `1e-10`.
    pub fn strategy_from_solution(x: &[Rational]) -> (r: Result<Vec<Rational>, GameError>)
        ensures
            r is Ok ==> strategy_from(reals(x@)) == Ok::<Seq<real>, GameError>(reals((r->Ok_0)@)),
            r is Ok ==> is_distribution(reals((r->Ok_0)@)) && (r->Ok_0).len() == x.len(),
            r is Err ==> strategy_from(reals(x@)) == Err::<Seq<real>, GameError>(r->Err_0),
    {
        let ghost xv = reals(x@);
        let ghost y = clamped(xv);
        let mut kept: Vec<Rational> = Vec::new();
        let mut i: usize = 0;
        while i < x.len()
            invariant
                i <= x.len(),
                xv == reals(x@),
                kept.len() == i,
                forall|k: int| 0 <= k < i ==> (#[trigger] kept@[k])@ == real_max(xv[k], 0real),
            decreases x.len() - i,
        {
            assert(xv[i as int] == x@[i as int]@);
            if x[i].is_negative() {
                kept.push(Rational::zero());
            } else {
                kept.push(x[i].clone());
            }
            i += 1;
        }
        assert(reals(kept@) =~= y);
        let mass = sum(kept.as_slice());
        let floor = Rational::one().div(&Rational::from_int(10_000_000_000));
        if mass.lt(&floor) {
            return Err(GameError::SolverError(SimplexError::Infeasible));
        }
        assert(mass@ > 0real);
        let mut out: Vec<Rational> = Vec::new();
        let mut j: usize = 0;
        while j < kept.len()
            invariant
                j <= kept.len(),
                y == reals(kept@),
                mass@ == total(y),
                mass@ != 0real,
                out.len() == j,
                forall|k: int| 0 <= k < j ==> (#[trigger] out@[k])@ == y[k] / mass@,
            decreases kept.len() - j,
        {
            assert(y[j as int] == kept@[j as int]@);
            out.push(kept[j].div(&mass));
            j += 1;
        }
        proof {
            assert(reals(out@) =~= normalized(y));
            lemma_strategy_from_is_distribution(xv);
        }
        Ok(out)
    }

    /// The row strategy that makes the column player indifferent among the
    /// columns `active_cols` of `matrix`.
    pub fn solve_indifference_system(&self, matrix: &[Vec<Rational>], active_cols: &[usize]) -> (r:
        Result<Vec<Rational>, GameError>)
        requires
            matrix.len() == self.rows(),
            forall|i: int| 0 <= i < matrix.len() ==> (#[trigger] matrix@[i])@.len() == self.cols(),
            active_cols.len() >= 1,
            forall|k: int| 0 <= k < active_cols.len() ==> (#[trigger] active_cols@[k]) < self.cols(),
        ensures
            r is Ok ==> indifference_strategy(
                real_rows(matrix@),
                active_cols@.map_values(|c: usize| c as int),
            ) == Ok::<Seq<real>, GameError>(reals((r->Ok_0)@)),
            r is Ok ==> is_distribution(reals((r->Ok_0)@)) && (r->Ok_0).len() == self.rows(),
            r is Err ==> indifference_strategy(
                real_rows(matrix@),
                active_cols@.map_values(|c: usize| c as int),
            ) == Err::<Seq<real>, GameError>(r->Err_0),
    {
        proof {
            use_type_invariant(self);
            assert(self.payoff_matrix@[0]@.len() == self.num_cols);
        }
        let ghost a = real_rows(matrix@);
        let ghost active = active_cols@.map_values(|c: usize| c as int);
        let ghost want = indifference_rows(a, active);
        let n = self.num_rows;
        let m = active_cols.len();
        let j0 = active_cols[0];
        assert(active[0] == j0);
        let mut aug: Vec<Vec<Rational>> = Vec::new();
        let mut rhs: Vec<Rational> = Vec::new();
        let mut k: usize = 1;
        while k < m
            invariant
                1 <= k <= m,
                m == active_cols.len(),
                n == matrix.len(),
                n >= 1,
                a == real_rows(matrix@),
                active == active_cols@.map_values(|c: usize| c as int),
                want == indifference_rows(a, active),
                j0 == active_cols@[0],
                forall|i: int|
                    0 <= i < matrix.len() ==> (#[trigger] matrix@[i])@.len() == self.cols(),
                forall|k: int|
                    0 <= k < active_cols.len() ==> (#[trigger] active_cols@[k]) < self.cols(),
                aug.len() == k - 1,
                rhs.len() == k - 1,
                forall|q: int| 0 <= q < k - 1 ==> reals((#[trigger] aug@[q])@) == want[q],
                forall|q: int| 0 <= q < k - 1 ==> (#[trigger] rhs@[q])@ == 0real,
            decreases m - k,
        {
            let jk = active_cols[k];
            assert(active[k as int] == jk);
            let mut row: Vec<Rational> = Vec::new();
            let mut i: usize = 0;
            while i < n
                invariant
                    i <= n,
                    n == matrix.len(),
                    a == real_rows(matrix@),
                    forall|i: int|
                        0 <= i < matrix.len() ==> (#[trigger] matrix@[i])@.len() == self.cols(),
                    j0 < self.cols(),
                    jk < self.cols(),
                    row.len() == i,
                    forall|q: int|
                        0 <= q < i ==> (#[trigger] row@[q])@ == a[q][j0 as int] - a[q][jk as int],
                decreases n - i,
            {
                assert(a[i as int][j0 as int] == matrix@[i as int]@[j0 as int]@);
                assert(a[i as int][jk as int] == matrix@[i as int]@[jk as int]@);
                row.push(matrix[i][j0].sub(&matrix[i][jk]));
                i += 1;
            }
            assert(reals(row@) =~= want[k - 1]);
            aug.push(row);
            rhs.push(Rational::zero());
            k += 1;
        }
        let last = GameSolver::ones_vector(n);
        assert(reals(last@) == want[m - 1]);
        aug.push(last);
        rhs.push(Rational::one());
        proof {
            assert(real_rows(aug@) =~= want);
            assert(reals(rhs@) =~= indifference_rhs(m as nat));
            assert(is_system(real_rows(aug@), reals(rhs@), n as int)) by {
                assert forall|i: int| 0 <= i < want.len() implies (#[trigger] want[i]).len()
                    >= n by {}
            }
        }
        let x = match gaussian_elimination(&mut aug, &mut rhs, n) {
            Ok(x) => x,
            Err(e) => {
                return Err(e);
            },
        };
        GameSolver::strategy_from_solution(x.as_slice())
    }

    /// The row strategy that goes with the solution `z` of the column
    /// program on `matrix`.
    pub fn row_strategy_from(&self, matrix: &[Vec<Rational>], z: &[Rational]) -> (r: Result<
        Vec<Rational>,
        GameError,
    >)
        requires
            matrix.len() == self.rows(),
            forall|i: int| 0 <= i < matrix.len() ==> (#[trigger] matrix@[i])@.len() == self.cols(),
            z.len() == self.cols(),
        ensures
            r is Ok ==> row_strategy_for(real_rows(matrix@), reals(z@)) == Ok::<
                Seq<real>,
                GameError,
            >(reals((r->Ok_0)@)),
            r is Ok ==> is_distribution(reals((r->Ok_0)@)) && (r->Ok_0).len() == self.rows(),
            r is Err ==> row_strategy_for(real_rows(matrix@), reals(z@)) == Err::<
                Seq<real>,
                GameError,
            >(r->Err_0),
    {
        proof {
            use_type_invariant(self);
            assert(self.payoff_matrix@[0]@.len() == self.num_cols);
        }
        let active_cols = GameSolver::active_columns_of(z);
        let ghost active = active_columns(reals(z@), z.len() as nat);
        assert(active_cols@.map_values(|c: usize| c as int) =~= active);
        if active_cols.len() == 0 {
            return Err(GameError::SolverError(SimplexError::Infeasible));
        }
        if active_cols.len() == 1 {
            let j = active_cols[0];
            let best = self.best_response_to(matrix, j);
            proof {
                lemma_best_response_unique(real_rows(matrix@), j as int, best as int);
                lemma_unit_is_distribution(self.num_rows as nat, best as int);
            }
            return Ok(unit(self.num_rows, best));
        }
        self.solve_indifference_system(matrix, active_cols.as_slice())
    }

    /// The row player's equilibrium strategy on the positive matrix
    /// `matrix`: the column program is solved, and the row strategy is read
    /// off the columns that its solution plays.
    pub fn solve_row_player(&self, matrix: &[Vec<Rational>]) -> (r: Result<Vec<Rational>, GameError>)
        requires
            matrix.len() == self.rows(),
            forall|i: int| 0 <= i < matrix.len() ==> (#[trigger] matrix@[i])@.len() == self.cols(),
        ensures
            match column_program(real_rows(matrix@), self.rows(), self.cols()) {
                Ok(z) => {
                    &&& r is Ok ==> row_strategy_for(real_rows(matrix@), z) == Ok::<
                        Seq<real>,
                        GameError,
                    >(reals((r->Ok_0)@))
                    &&& r is Err ==> row_strategy_for(real_rows(matrix@), z) == Err::<
                        Seq<real>,
                        GameError,
                    >(r->Err_0)
                },
                Err(e) => r == Err::<Vec<Rational>, GameError>(e),
            },
            r is Ok ==> is_distribution(reals((r->Ok_0)@)) && (r->Ok_0).len() == self.rows(),
    {
        let z = match self.solve_col_player_internal(matrix) {
            Ok(z) => z,
            Err(e) => {
                return Err(e);
            },
        };
        assert(reals(z@).len() == self.cols());
        self.row_strategy_from(matrix, z.as_slice())
    }

    /// The equilibrium of the game: both players' mixed strategies and the
    /// game value. The row strategy is a probability distribution, the
    /// column strategy sums to one, and the game value is the least payoff
    /// of the row strategy over the pure columns of the unshifted matrix.
    /// The column strategy has no negative entry where the pivots of the
    /// column program stay clear of positive entries within the tolerance.
    pub fn solve(&self) -> (r: Result<GameSolution, GameError>)
        ensures
            r is Ok ==> {
                let s = r->Ok_0;
                &&& equilibrium(self.payoffs()) == Ok::<(Seq<real>, Seq<real>, real), GameError>(
                    (reals(s.row_strategy@), reals(s.col_strategy@), s.game_value@),
                )
                &&& s.row_strategy.len() == self.rows()
                &&& s.col_strategy.len() == self.cols()
                &&& is_distribution(reals(s.row_strategy@))
                &&& total(reals(s.col_strategy@)) == 1real
                &&& stays_clear(column_table(self.payoffs()), 1000) ==> is_distribution(
                    reals(s.col_strategy@),
                )
                &&& is_security_level(self.payoffs(), reals(s.row_strategy@), s.game_value@)
            },
            r is Err ==> equilibrium(self.payoffs()) == Err::<
                (Seq<real>, Seq<real>, real),
                GameError,
            >(r->Err_0),
    {
        proof {
            use_type_invariant(self);
            assert(self.payoff_matrix@[0]@.len() == self.num_cols);
        }
        let shift = self.calculate_shift();
        let shifted_matrix = self.shift_matrix(&shift);
        proof {
            let sv = real_rows(shifted_matrix@);
            assert(sv.len() == self.rows());
            assert forall|i: int| 0 <= i < shifted_matrix.len() implies (
            #[trigger] shifted_matrix@[i])@.len() == self.cols() by {
                assert(sv[i].len() == self.payoffs()[i].len());
                assert(self.payoff_matrix@[i]@.len() == self.num_cols);
                assert(sv[i] == reals(shifted_matrix@[i]@));
            }
        }
        let row_strategy = match self.solve_row_player(shifted_matrix.as_slice()) {
            Ok(p) => p,
            Err(e) => {
                return Err(e);
            },
        };
        let col_strategy = match self.solve_col_player(shifted_matrix.as_slice()) {
            Ok(q) => q,
            Err(e) => {
                return Err(e);
            },
        };
        let game_value = self.calculate_game_value(row_strategy.as_slice());
        proof {
            let z = column_program(
                real_rows(shifted_matrix@),
                self.rows(),
                self.cols(),
            )->Ok_0;
            assert(total(z) != 0real);
            lemma_total_scaled(z);
            assert(reals(col_strategy@).len() == z.len());
            if stays_clear(column_table(self.payoffs()), 1000) {
                lemma_column_strategy_is_distribution(
                    real_rows(shifted_matrix@),
                    self.rows(),
                    self.cols(),
                );
            }
        }
        Ok(GameSolution { row_strategy, col_strategy, game_value })
    }
}

impl Clone for GameSolver {
    /// A second copy of this game.
    fn clone(&self) -> (r: GameSolver)
        ensures
            r.payoffs() == self.payoffs(),
    {
        proof {
            use_type_invariant(self);
        }
        let payoff_matrix = duplicate_rows(self.payoff_matrix.as_slice());
        proof {
            assert(real_rows(payoff_matrix@).len() == real_rows(self.payoff_matrix@).len());
            assert(payoff_matrix@.len() == self.payoff_matrix@.len());
            assert forall|i: int| 0 <= i < payoff_matrix@.len() implies (
            #[trigger] payoff_matrix@[i])@.len() == self.num_cols by {
                assert(self.payoff_matrix@[i]@.len() == self.num_cols);
                assert(real_rows(payoff_matrix@)[i] == real_rows(self.payoff_matrix@)[i]);
                assert(real_rows(payoff_matrix@)[i].len() == payoff_matrix@[i]@.len());
                assert(real_rows(self.payoff_matrix@)[i].len() == self.payoff_matrix@[i]@.len());
            }
        }
        GameSolver { payoff_matrix, num_rows: self.num_rows, num_cols: self.num_cols }
    }
}

} // verus!
