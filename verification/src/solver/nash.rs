//! Nash equilibria of two-player zero-sum games, and the check that a pair
//! of strategies is one up to a tolerance.

use super::game::{
    column_payoff, equilibrium, expected, is_security_level, matrix_fault, row_payoff, GameError,
    GameSolution, GameSolver,
};
use crate::exact::rational::Rational;
use crate::exact::vector::{
    is_distribution, lemma_partial_sum_agree, lemma_partial_sum_pick, lemma_partial_sum_scale,
    lemma_sum_exchange, lemma_weighted_sum_at_least, lemma_weighted_sum_at_most, partial_sum,
    real_rows, reals, total, unit, unit_vector,
};
use vstd::prelude::*;

verus! {

/// What solving the game `m` gives: the fault of its shape, or its
/// equilibrium.
pub open spec fn nash_outcome(m: Seq<Seq<real>>) -> Result<(Seq<real>, Seq<real>, real), GameError> {
    match matrix_fault(m) {
        Some(e) => Err(e),
        None => equilibrium(m),
    }
}

/// Whether `p` and `q` can be played on `a`: there is a row, `p` has a
/// probability for every row, and no row is longer than the first or than `q`.
pub open spec fn fits(a: Seq<Seq<real>>, p: Seq<real>, q: Seq<real>) -> bool {
    &&& a.len() >= 1
    &&& p.len() >= a.len()
    &&& forall|i: int|
        0 <= i < a.len() ==> (#[trigger] a[i]).len() <= q.len() && a[i].len() <= a[0].len()
}

/// The payoff when the row player leaves `p` for the pure row `i`.
pub open spec fn row_deviation(a: Seq<Seq<real>>, q: Seq<real>, i: int) -> real {
    expected(a, unit_vector(a.len(), i), q)
}

/// The payoff when the column player leaves `q` for the pure column `j`.
pub open spec fn column_deviation(a: Seq<Seq<real>>, p: Seq<real>, j: int) -> real {
    expected(a, p, unit_vector(a[0].len(), j))
}

/// Whether `(p, q)` is an equilibrium of `a` up to `epsilon`: no pure row
/// gains the row player more than `epsilon`, and no pure column lowers the
/// payoff by more than `epsilon`.
pub open spec fn is_epsilon_equilibrium(
    a: Seq<Seq<real>>,
    p: Seq<real>,
    q: Seq<real>,
    epsilon: real,
) -> bool {
    &&& forall|i: int| 0 <= i < a.len() ==> row_deviation(a, q, i) <= expected(a, p, q) + epsilon
    &&& forall|j: int|
        0 <= j < a[0].len() ==> column_deviation(a, p, j) >= expected(a, p, q) - epsilon
}

/// Leaving for the pure row `i` pays what row `i` pays against `q`.
pub proof fn lemma_row_deviation(a: Seq<Seq<real>>, q: Seq<real>, i: int)
    requires
        0 <= i < a.len(),
    ensures
        row_deviation(a, q, i) == row_payoff(a, q, i),
{
    let e = unit_vector(a.len(), i);
    let outer = Seq::new(
        a.len(),
        |k: int| total(Seq::new(a[k].len(), |j: int| e[k] * q[j] * a[k][j])),
    );
    let x = Seq::new(a.len(), |k: int| row_payoff(a, q, k));
    assert forall|k: int| 0 <= k < a.len() implies outer[k] == if k == i {
        x[k]
    } else {
        0real
    } by {
        let inner = Seq::new(a[k].len(), |j: int| e[k] * q[j] * a[k][j]);
        let plain = Seq::new(a[k].len(), |j: int| q[j] * a[k][j]);
        assert forall|j: int| 0 <= j < a[k].len() implies inner[j] == e[k] * plain[j] by {
            let (s, u, v) = (e[k], q[j], a[k][j]);
            assert(s * u * v == s * (u * v)) by (nonlinear_arith);
        }
        lemma_partial_sum_scale(plain, inner, e[k], a[k].len());
        let t = total(plain);
        assert(1real * t == t && 0real * t == 0real) by (nonlinear_arith);
    }
    lemma_partial_sum_pick(outer, x, i, a.len());
}

/// Leaving for the pure column `j` pays what `p` pays against column `j`.
pub proof fn lemma_column_deviation(a: Seq<Seq<real>>, p: Seq<real>, j: int)
    requires
        matrix_fault(a) is None,
        0 <= j < a[0].len(),
    ensures
        column_deviation(a, p, j) == column_payoff(a, p, j),
{
    let m = a[0].len();
    let e = unit_vector(m, j);
    let outer = Seq::new(
        a.len(),
        |k: int| total(Seq::new(a[k].len(), |c: int| p[k] * e[c] * a[k][c])),
    );
    let column = Seq::new(a.len(), |k: int| p[k] * a[k][j]);
    assert forall|k: int| 0 <= k < a.len() implies outer[k] == column[k] by {
        assert(a[k].len() == m);
        let inner = Seq::new(a[k].len(), |c: int| p[k] * e[c] * a[k][c]);
        let plain = Seq::new(a[k].len(), |c: int| p[k] * a[k][c]);
        assert forall|c: int| 0 <= c < m implies inner[c] == if c == j {
            plain[c]
        } else {
            0real
        } by {
            let (s, v) = (p[k], a[k][c]);
            assert(s * 1real * v == s * v && s * 0real * v == 0real) by (nonlinear_arith);
        }
        lemma_partial_sum_pick(inner, plain, j, m);
    }
    lemma_partial_sum_agree(outer, column, a.len());
}

/// The expected payoff is the average, by `p`, of what the pure rows pay
/// against `q`.
pub proof fn lemma_expected_by_rows(a: Seq<Seq<real>>, p: Seq<real>, q: Seq<real>)
    ensures
        expected(a, p, q) == total(Seq::new(a.len(), |i: int| p[i] * row_payoff(a, q, i))),
{
    let outer = Seq::new(
        a.len(),
        |i: int| total(Seq::new(a[i].len(), |j: int| p[i] * q[j] * a[i][j])),
    );
    let averaged = Seq::new(a.len(), |i: int| p[i] * row_payoff(a, q, i));
    assert forall|i: int| 0 <= i < a.len() implies outer[i] == averaged[i] by {
        let inner = Seq::new(a[i].len(), |j: int| p[i] * q[j] * a[i][j]);
        let plain = Seq::new(a[i].len(), |j: int| q[j] * a[i][j]);
        assert forall|j: int| 0 <= j < a[i].len() implies inner[j] == p[i] * plain[j] by {
            let (s, u, v) = (p[i], q[j], a[i][j]);
            assert(s * u * v == s * (u * v)) by (nonlinear_arith);
        }
        lemma_partial_sum_scale(plain, inner, p[i], a[i].len());
    }
    lemma_partial_sum_agree(outer, averaged, a.len());
}

/// The expected payoff is the average, by `q`, of what `p` pays against
/// the pure columns.
pub proof fn lemma_expected_by_columns(a: Seq<Seq<real>>, p: Seq<real>, q: Seq<real>)
    requires
        matrix_fault(a) is None,
    ensures
        expected(a, p, q) == total(Seq::new(a[0].len(), |j: int| q[j] * column_payoff(a, p, j))),
{
    let n = a.len();
    let m = a[0].len();
    let f = |i: int, j: int| p[i] * q[j] * a[i][j];
    let outer = Seq::new(n, |i: int| total(Seq::new(a[i].len(), |j: int| p[i] * q[j] * a[i][j])));
    let by_rows = Seq::new(n, |i: int| total(Seq::new(m, |j: int| f(i, j))));
    let by_cols = Seq::new(m, |j: int| total(Seq::new(n, |i: int| f(i, j))));
    let averaged = Seq::new(m, |j: int| q[j] * column_payoff(a, p, j));
    assert forall|i: int| 0 <= i < n implies outer[i] == by_rows[i] by {
        assert(a[i].len() == m);
        assert(Seq::new(a[i].len(), |j: int| p[i] * q[j] * a[i][j]) =~= Seq::new(
            m,
            |j: int| f(i, j),
        ));
    }
    lemma_partial_sum_agree(outer, by_rows, n);
    lemma_sum_exchange(f, n, m);
    assert forall|j: int| 0 <= j < m implies by_cols[j] == averaged[j] by {
        let inner = Seq::new(n, |i: int| f(i, j));
        let plain = Seq::new(n, |i: int| p[i] * a[i][j]);
        assert forall|i: int| 0 <= i < n implies inner[i] == q[j] * plain[i] by {
            let (s, u, v) = (p[i], q[j], a[i][j]);
            assert(s * u * v == u * (s * v)) by (nonlinear_arith);
        }
        lemma_partial_sum_scale(plain, inner, q[j], n);
    }
    lemma_partial_sum_agree(by_cols, averaged, m);
}

/// A row strategy secures its security level against every mixed strategy
/// of the column player, not only against the pure columns. So the game
/// value that `GameSolver::solve` returns is a payoff that its row strategy
/// guarantees.
pub proof fn lemma_security_level_is_secured(
    a: Seq<Seq<real>>,
    p: Seq<real>,
    q: Seq<real>,
    value: real,
)
    requires
        matrix_fault(a) is None,
        q.len() == a[0].len(),
        is_distribution(q),
        is_security_level(a, p, value),
    ensures
        expected(a, p, q) >= value,
{
    let m = a[0].len();
    let cols = Seq::new(m, |j: int| column_payoff(a, p, j));
    let by_cols = Seq::new(m, |j: int| q[j] * column_payoff(a, p, j));
    lemma_expected_by_columns(a, p, q);
    lemma_weighted_sum_at_least(q, cols, by_cols, value, m);
    assert(value * 1real == value) by (nonlinear_arith);
}

/// A pair of mixed strategies is an equilibrium up to `epsilon` where the
/// row strategy secures `value` against every pure column and the column
/// strategy holds every pure row to `value + epsilon`.
///
/// `GameSolver::solve` returns a row strategy that is a distribution, a
/// column strategy that sums to one, and the value that the row strategy
/// secures. So its result is an equilibrium up to `epsilon` whenever the
/// column strategy has no negative entry and holds every pure row to the
/// game value plus `epsilon`.
pub proof fn lemma_small_gap_is_equilibrium(
    a: Seq<Seq<real>>,
    p: Seq<real>,
    q: Seq<real>,
    value: real,
    epsilon: real,
)
    requires
        matrix_fault(a) is None,
        p.len() == a.len(),
        q.len() == a[0].len(),
        is_distribution(p),
        is_distribution(q),
        forall|j: int| 0 <= j < a[0].len() ==> column_payoff(a, p, j) >= value,
        forall|i: int| 0 <= i < a.len() ==> row_payoff(a, q, i) <= value + epsilon,
    ensures
        is_epsilon_equilibrium(a, p, q, epsilon),
{
    let n = a.len();
    let m = a[0].len();
    let rows = Seq::new(n, |i: int| row_payoff(a, q, i));
    let by_rows = Seq::new(n, |i: int| p[i] * row_payoff(a, q, i));
    let cols = Seq::new(m, |j: int| column_payoff(a, p, j));
    let by_cols = Seq::new(m, |j: int| q[j] * column_payoff(a, p, j));
    lemma_expected_by_rows(a, p, q);
    lemma_expected_by_columns(a, p, q);
    lemma_weighted_sum_at_most(p, rows, by_rows, value + epsilon, n);
    lemma_weighted_sum_at_least(q, cols, by_cols, value, m);
    let hi = value + epsilon;
    assert(hi * 1real == hi && value * 1real == value) by (nonlinear_arith);
    assert(value <= expected(a, p, q) <= value + epsilon);
    assert forall|i: int| 0 <= i < n implies row_deviation(a, q, i) <= expected(a, p, q)
        + epsilon by {
        lemma_row_deviation(a, q, i);
    }
    assert forall|j: int| 0 <= j < m implies column_deviation(a, p, j) >= expected(a, p, q)
        - epsilon by {
        lemma_column_deviation(a, p, j);
    }
}

/// The equilibrium of a game.
#[derive(Debug)]
pub struct NashEquilibrium {
    solution: GameSolution,
}

impl NashEquilibrium {
    /// The equilibrium held.
    pub closed spec fn outcome(&self) -> GameSolution {
        self.solution
    }

    /// Solves the game with the given payoffs. Fails with the fault of the
    /// matrix where it has one, else with the solver's failure.
    pub fn find(payoff_matrix: Vec<Vec<Rational>>) -> (r: Result<NashEquilibrium, GameError>)
        ensures
            r is Ok ==> {
                let s = (r->Ok_0).outcome();
                nash_outcome(real_rows(payoff_matrix@)) == Ok::<
                    (Seq<real>, Seq<real>, real),
                    GameError,
                >((reals(s.row_strategy@), reals(s.col_strategy@), s.game_value@))
            },
            r is Err ==> nash_outcome(real_rows(payoff_matrix@)) == Err::<
                (Seq<real>, Seq<real>, real),
                GameError,
            >(r->Err_0),
    {
        let solver = match GameSolver::new(payoff_matrix) {
            Ok(s) => s,
            Err(e) => {
                return Err(e);
            },
        };
        match solver.solve() {
            Ok(solution) => Ok(NashEquilibrium { solution }),
            Err(e) => Err(e),
        }
    }

    /// The row player's equilibrium strategy.
    pub fn row_strategy(&self) -> (r: &[Rational])
        ensures
            r@ == self.outcome().row_strategy@,
    {
        self.solution.row_strategy.as_slice()
    }

    /// The column player's equilibrium strategy.
    pub fn col_strategy(&self) -> (r: &[Rational])
        ensures
            r@ == self.outcome().col_strategy@,
    {
        self.solution.col_strategy.as_slice()
    }

    /// The value of the game.
    pub fn value(&self) -> (r: Rational)
        ensures
            r@ == self.outcome().game_value@,
    {
        self.solution.game_value.clone()
    }

    /// The equilibrium in full.
    pub fn solution(&self) -> (r: &GameSolution)
        ensures
            *r == self.outcome(),
    {
        &self.solution
    }

    /// The expected payoff of `row_strategy` against `col_strategy` on
    /// `payoff_matrix`.
    pub fn expected_payoff(
        payoff_matrix: &[Vec<Rational>],
        row_strategy: &[Rational],
        col_strategy: &[Rational],
    ) -> (r: Rational)
        requires
            row_strategy.len() >= payoff_matrix.len(),
            forall|i: int|
                0 <= i < payoff_matrix.len() ==> (#[trigger] payoff_matrix@[i])@.len()
                    <= col_strategy.len(),
        ensures
            r@ == expected(real_rows(payoff_matrix@), reals(row_strategy@), reals(col_strategy@)),
    {
        let ghost a = real_rows(payoff_matrix@);
        let ghost p = reals(row_strategy@);
        let ghost q = reals(col_strategy@);
        let ghost outer = Seq::new(
            a.len(),
            |i: int| total(Seq::new(a[i].len(), |j: int| p[i] * q[j] * a[i][j])),
        );
        let mut payoff = Rational::zero();
        let mut i: usize = 0;
        while i < payoff_matrix.len()
            invariant
                i <= payoff_matrix.len(),
                row_strategy.len() >= payoff_matrix.len(),
                forall|i: int|
                    0 <= i < payoff_matrix.len() ==> (#[trigger] payoff_matrix@[i])@.len()
                        <= col_strategy.len(),
                a == real_rows(payoff_matrix@),
                p == reals(row_strategy@),
                q == reals(col_strategy@),
                outer == Seq::new(
                    a.len(),
                    |i: int| total(Seq::new(a[i].len(), |j: int| p[i] * q[j] * a[i][j])),
                ),
                payoff@ == partial_sum(outer, i as nat),
            decreases payoff_matrix.len() - i,
        {
            let ghost inner = Seq::new(
                a[i as int].len(),
                |j: int| p[i as int] * q[j] * a[i as int][j],
            );
            let width = payoff_matrix[i].len();
            let mut line = Rational::zero();
            let mut j: usize = 0;
            while j < width
                invariant
                    j <= width,
                    i < payoff_matrix.len(),
                    width == payoff_matrix@[i as int]@.len(),
                    width <= col_strategy.len(),
                    row_strategy.len() >= payoff_matrix.len(),
                    a == real_rows(payoff_matrix@),
                    p == reals(row_strategy@),
                    q == reals(col_strategy@),
                    inner == Seq::new(
                        a[i as int].len(),
                        |j: int| p[i as int] * q[j] * a[i as int][j],
                    ),
                    line@ == partial_sum(inner, j as nat),
                decreases width - j,
            {
                assert(a[i as int][j as int] == payoff_matrix@[i as int]@[j as int]@);
                assert(p[i as int] == row_strategy@[i as int]@);
                assert(q[j as int] == col_strategy@[j as int]@);
                assert(inner[j as int] == p[i as int] * q[j as int] * a[i as int][j as int]);
                let term = row_strategy[i].mul(&col_strategy[j]).mul(&payoff_matrix[i][j]);
                line = line.add(&term);
                j += 1;
            }
            proof {
                assert(a[i as int].len() == width);
                assert(outer[i as int] == total(inner));
            }
            payoff = payoff.add(&line);
            i += 1;
        }
        payoff
    }

    /// Whether `(row_strategy, col_strategy)` is an equilibrium of
    /// `payoff_matrix` up to `epsilon`.
    pub fn is_epsilon_nash(
        payoff_matrix: &[Vec<Rational>],
        row_strategy: &[Rational],
        col_strategy: &[Rational],
        epsilon: &Rational,
    ) -> (b: bool)
        requires
            fits(real_rows(payoff_matrix@), reals(row_strategy@), reals(col_strategy@)),
        ensures
            b == is_epsilon_equilibrium(
                real_rows(payoff_matrix@),
                reals(row_strategy@),
                reals(col_strategy@),
                epsilon@,
            ),
    {
        let ghost a = real_rows(payoff_matrix@);
        let ghost p = reals(row_strategy@);
        let ghost q = reals(col_strategy@);
        proof {
            assert forall|i: int| 0 <= i < payoff_matrix.len() implies (
            #[trigger] payoff_matrix@[i])@.len() <= col_strategy.len() && payoff_matrix@[i]@.len()
                <= payoff_matrix@[0]@.len() by {
                assert(a[i].len() <= q.len());
                assert(a[0].len() == payoff_matrix@[0]@.len());
            }
        }
        let num_rows = payoff_matrix.len();
        let num_cols = payoff_matrix[0].len();
        assert(a[0].len() == num_cols);
        assert(a.len() == num_rows);
        let current = NashEquilibrium::expected_payoff(payoff_matrix, row_strategy, col_strategy);
        let upper = current.add(epsilon);
        let lower = current.sub(epsilon);
        let mut i: usize = 0;
        while i < num_rows
            invariant
                i <= num_rows,
                num_rows == payoff_matrix.len(),
                a == real_rows(payoff_matrix@),
                p == reals(row_strategy@),
                q == reals(col_strategy@),
                upper@ == expected(a, p, q) + epsilon@,
                forall|i: int|
                    0 <= i < payoff_matrix.len() ==> (#[trigger] payoff_matrix@[i])@.len()
                        <= col_strategy.len(),
                forall|k: int| 0 <= k < i ==> row_deviation(a, q, k) <= expected(a, p, q) + epsilon@,
            decreases num_rows - i,
        {
            let pure = unit(num_rows, i);
            let deviation = NashEquilibrium::expected_payoff(
                payoff_matrix,
                pure.as_slice(),
                col_strategy,
            );
            if deviation.gt(&upper) {
                assert(row_deviation(a, q, i as int) > expected(a, p, q) + epsilon@);
                return false;
            }
            i += 1;
        }
        let mut j: usize = 0;
        while j < num_cols
            invariant
                j <= num_cols,
                num_rows >= 1,
                num_cols == a[0].len(),
                num_cols == payoff_matrix@[0]@.len(),
                num_rows == payoff_matrix.len(),
                row_strategy.len() >= payoff_matrix.len(),
                a == real_rows(payoff_matrix@),
                p == reals(row_strategy@),
                lower@ == expected(a, p, q) - epsilon@,
                q == reals(col_strategy@),
                forall|i: int|
                    0 <= i < payoff_matrix.len() ==> (#[trigger] payoff_matrix@[i])@.len()
                        <= num_cols,
                forall|k: int| 0 <= k < num_rows ==> row_deviation(a, q, k) <= expected(a, p, q)
                    + epsilon@,
                forall|k: int|
                    0 <= k < j ==> column_deviation(a, p, k) >= expected(a, p, q) - epsilon@,
            decreases num_cols - j,
        {
            let pure = unit(num_cols, j);
            let deviation = NashEquilibrium::expected_payoff(
                payoff_matrix,
                row_strategy,
                pure.as_slice(),
            );
            if deviation.lt(&lower) {
                assert(column_deviation(a, p, j as int) < expected(a, p, q) - epsilon@);
                return false;
            }
            j += 1;
        }
        true
    }
}

} // verus!
