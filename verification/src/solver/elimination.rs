//! Gaussian elimination with partial pivoting on exact rationals.

use super::game::GameError;
use super::simplex::SimplexError;
use crate::exact::rational::{real_abs, Rational};
use crate::exact::vector::{
    duplicate_row, lemma_partial_sum_agree, lemma_partial_sum_linear, partial_sum, real_rows, reals,
    row_value,
};
use vstd::prelude::*;

verus! {

/// The magnitude below which a pivot counts as zero: `1e-12`.
pub open spec fn pivot_floor() -> real {
    1real / 1000000000000real
}

/// Row `p` holds the partial pivot of column `col`: the first of the rows
/// from `col` on whose entry in that column is largest in magnitude.
pub open spec fn is_partial_pivot(a: Seq<Seq<real>>, col: int, p: int) -> bool {
    &&& col <= p < a.len()
    &&& forall|r: int| col <= r < a.len() ==> real_abs(a[p][col]) >= real_abs(#[trigger] a[r][col])
    &&& forall|r: int| col <= r < p ==> real_abs(a[p][col]) > real_abs(#[trigger] a[r][col])
}

/// The row of the partial pivot of column `col`.
pub open spec fn partial_pivot(a: Seq<Seq<real>>, col: int) -> int {
    choose|p: int| is_partial_pivot(a, col, p)
}

/// The sequence `s` with the entries at `i` and `j` exchanged.
pub open spec fn exchanged<T>(s: Seq<T>, i: int, j: int) -> Seq<T> {
    s.update(i, s[j]).update(j, s[i])
}

/// The multiple of row `col` that clears column `col` in row `i`.
pub open spec fn clearing_factor(a: Seq<Seq<real>>, col: int, i: int) -> real {
    a[i][col] / a[col][col]
}

/// The matrix `a` with column `col` cleared below row `col`, over the
/// columns from `col` up to `n`.
pub open spec fn cleared_below(a: Seq<Seq<real>>, col: int, n: int) -> Seq<Seq<real>> {
    Seq::new(
        a.len(),
        |i: int|
            if i > col {
                Seq::new(
                    a[i].len(),
                    |j: int|
                        if col <= j < n {
                            a[i][j] - clearing_factor(a, col, i) * a[col][j]
                        } else {
                            a[i][j]
                        },
                )
            } else {
                a[i]
            },
    )
}

/// The right-hand side that goes with `cleared_below`.
pub open spec fn cleared_rhs(a: Seq<Seq<real>>, b: Seq<real>, col: int) -> Seq<real> {
    Seq::new(
        b.len(),
        |i: int|
            if col < i < a.len() {
                b[i] - clearing_factor(a, col, i) * b[col]
            } else {
                b[i]
            },
    )
}

/// One step of forward elimination, on column `col`. A column whose pivot is
/// below the floor is skipped. Otherwise the pivot row is brought to row
/// `col`, and the column is cleared below it if the pivot is above the floor.
pub open spec fn eliminate_column(a: Seq<Seq<real>>, b: Seq<real>, col: int, n: int) -> (
    Seq<Seq<real>>,
    Seq<real>,
) {
    let p = partial_pivot(a, col);
    if real_abs(a[p][col]) < pivot_floor() {
        (a, b)
    } else {
        let a1 = exchanged(a, col, p);
        let b1 = exchanged(b, col, p);
        if real_abs(a1[col][col]) > pivot_floor() {
            (cleared_below(a1, col, n), cleared_rhs(a1, b1, col))
        } else {
            (a1, b1)
        }
    }
}

/// The system after forward elimination on its first `k` columns.
pub open spec fn eliminated(a: Seq<Seq<real>>, b: Seq<real>, n: int, k: nat) -> (
    Seq<Seq<real>>,
    Seq<real>,
)
    decreases k,
{
    if k == 0 {
        (a, b)
    } else {
        let before = eliminated(a, b, n, (k - 1) as nat);
        eliminate_column(before.0, before.1, k - 1, n)
    }
}

/// `start` less the products `row[j] * x[j]` for `from <= j < upto`.
pub open spec fn remainder(row: Seq<real>, x: Seq<real>, start: real, from: int, upto: int) -> real
    decreases upto - from,
{
    if upto <= from {
        start
    } else {
        remainder(row, x, start, from, upto - 1) - row[upto - 1] * x[upto - 1]
    }
}

/// The number of rows that forward elimination and back substitution work
/// on: the smaller of the number of equations and of unknowns.
pub open spec fn rank_bound(a: Seq<Seq<real>>, n: int) -> nat {
    if a.len() <= n {
        a.len()
    } else {
        n as nat
    }
}

/// The unknowns after back substitution on the rows from `k` up: every
/// unknown starts as zero, and row `i` sets unknown `i` where its diagonal
/// entry is above the floor.
pub open spec fn back_substituted(a: Seq<Seq<real>>, b: Seq<real>, n: int, k: int) -> Seq<real>
    decreases rank_bound(a, n) - k,
{
    if k >= rank_bound(a, n) {
        Seq::new(n as nat, |j: int| 0real)
    } else {
        let x = back_substituted(a, b, n, k + 1);
        if real_abs(a[k][k]) > pivot_floor() {
            x.update(k, remainder(a[k], x, b[k], k + 1, n) / a[k][k])
        } else {
            x
        }
    }
}

/// The unknowns that elimination and back substitution give for the system
/// `a.x = b` in `n` unknowns.
pub open spec fn gaussian_solution(a: Seq<Seq<real>>, b: Seq<real>, n: int) -> Seq<real> {
    let reduced = eliminated(a, b, n, rank_bound(a, n));
    back_substituted(reduced.0, reduced.1, n, 0)
}

/// Whether `a` and `b` form a system in `n` unknowns: every row has an entry
/// for every unknown, and every row has a right-hand side.
pub open spec fn is_system(a: Seq<Seq<real>>, b: Seq<real>, n: int) -> bool {
    &&& b.len() >= a.len()
    &&& forall|i: int| 0 <= i < a.len() ==> (#[trigger] a[i]).len() >= n
}

/// A column has at most one partial pivot.
pub proof fn lemma_partial_pivot_unique(a: Seq<Seq<real>>, col: int, p: int)
    requires
        is_partial_pivot(a, col, p),
    ensures
        partial_pivot(a, col) == p,
{
    let q = partial_pivot(a, col);
    assert(is_partial_pivot(a, col, q));
    if q < p {
        assert(real_abs(a[p][col]) > real_abs(a[q][col]));
        assert(real_abs(a[q][col]) >= real_abs(a[p][col]));
    } else if p < q {
        assert(real_abs(a[q][col]) > real_abs(a[p][col]));
        assert(real_abs(a[p][col]) >= real_abs(a[q][col]));
    }
}

/// Whether `x` solves the system `a.x = b` in `n` unknowns.
pub open spec fn solves(a: Seq<Seq<real>>, b: Seq<real>, x: Seq<real>, n: nat) -> bool {
    forall|i: int| 0 <= i < a.len() ==> row_value(#[trigger] a[i], x, n) == b[i]
}

/// Whether the first `k` columns of `a` are zero below the diagonal, with
/// diagonal entries above the floor.
pub open spec fn is_reduced(a: Seq<Seq<real>>, k: int) -> bool {
    &&& forall|i: int, j: int| 0 <= j < k && j < i < a.len() ==> #[trigger] a[i][j] == 0real
    &&& forall|i: int| 0 <= i < k && i < a.len() ==> real_abs((#[trigger] a[i])[i]) > pivot_floor()
}

/// Whether forward elimination finds, in each of the first `k` columns, a
/// pivot above the floor.
pub open spec fn is_regular(a: Seq<Seq<real>>, b: Seq<real>, n: int, k: nat) -> bool
    decreases k,
{
    if k == 0 {
        true
    } else {
        let before = eliminated(a, b, n, (k - 1) as nat);
        &&& is_regular(a, b, n, (k - 1) as nat)
        &&& real_abs(before.0[partial_pivot(before.0, k - 1)][k - 1]) > pivot_floor()
    }
}

/// Among the rows from `col` up to `upto`, the first of largest magnitude in
/// column `col`.
proof fn lemma_first_largest(a: Seq<Seq<real>>, col: int, upto: int) -> (p: int)
    requires
        0 <= col < upto <= a.len(),
    ensures
        col <= p < upto,
        forall|r: int| col <= r < upto ==> real_abs(a[p][col]) >= real_abs(#[trigger] a[r][col]),
        forall|r: int| col <= r < p ==> real_abs(a[p][col]) > real_abs(#[trigger] a[r][col]),
    decreases upto - col,
{
    if upto == col + 1 {
        col
    } else {
        let before = lemma_first_largest(a, col, upto - 1);
        if real_abs(a[upto - 1][col]) > real_abs(a[before][col]) {
            upto - 1
        } else {
            before
        }
    }
}

/// Every column with a row at or below the diagonal has a partial pivot.
pub proof fn lemma_partial_pivot_exists(a: Seq<Seq<real>>, col: int)
    requires
        0 <= col < a.len(),
    ensures
        is_partial_pivot(a, col, partial_pivot(a, col)),
{
    let p = lemma_first_largest(a, col, a.len() as int);
    assert(is_partial_pivot(a, col, p));
}

/// One regular step of elimination keeps the system's shape, extends the
/// reduced part by a column, and keeps every solution of the new system a
/// solution of the old.
pub proof fn lemma_step_is_sound(a: Seq<Seq<real>>, b: Seq<real>, col: int, n: nat, x: Seq<real>)
    requires
        is_system(a, b, n as int),
        0 <= col < a.len(),
        col < n,
        is_reduced(a, col),
        real_abs(a[partial_pivot(a, col)][col]) > pivot_floor(),
    ensures
        is_system(eliminate_column(a, b, col, n as int).0, eliminate_column(a, b, col, n as int).1, n as int),
        eliminate_column(a, b, col, n as int).0.len() == a.len(),
        is_reduced(eliminate_column(a, b, col, n as int).0, col + 1),
        solves(
            eliminate_column(a, b, col, n as int).0,
            eliminate_column(a, b, col, n as int).1,
            x,
            n,
        ) ==> solves(a, b, x, n),
{
    let p = partial_pivot(a, col);
    lemma_partial_pivot_exists(a, col);
    let a1 = exchanged(a, col, p);
    let b1 = exchanged(b, col, p);
    let next = cleared_below(a1, col, n as int);
    let side = cleared_rhs(a1, b1, col);
    assert(eliminate_column(a, b, col, n as int) == (next, side));
    let d = a1[col][col];
    assert(a1[col] == a[p]);
    assert(d != 0real);
    // Every row of the exchanged matrix is a row of the old one from the
    // same side of the diagonal.
    assert forall|i: int| 0 <= i < a.len() implies (#[trigger] a1[i]).len() >= n by {
        assert(a[i].len() >= n && a[col].len() >= n && a[p].len() >= n);
    }
    assert forall|i: int, j: int| 0 <= j < col && j < i < a.len() implies #[trigger] a1[i][j]
        == 0real by {
        assert(a[i][j] == 0real && a[col][j] == 0real && a[p][j] == 0real);
    }
    assert forall|i: int| 0 <= i < next.len() implies (#[trigger] next[i]).len() >= n by {
        assert(a1[i].len() >= n);
    }
    assert forall|i: int, j: int| 0 <= j < col + 1 && j < i < next.len() implies
        #[trigger] next[i][j] == 0real by {
        assert(a1[i].len() >= n);
        if i > col {
            if j == col {
                let y = a1[i][col];
                assert(y - (y / d) * d == 0real) by (nonlinear_arith)
                    requires
                        d != 0real,
                ;
            } else {
                assert(a1[i][j] == 0real);
            }
        } else {
            assert(a1[i][j] == 0real);
        }
    }
    assert forall|i: int| 0 <= i < col + 1 && i < next.len() implies real_abs(
        (#[trigger] next[i])[i],
    ) > pivot_floor() by {
        if i < col {
            assert(a1[i] == a[i]);
            assert(real_abs(a[i][i]) > pivot_floor());
        }
    }
    if solves(next, side, x, n) {
        assert(row_value(next[col], x, n) == side[col]);
        let pivot_terms = Seq::new(n, |j: int| a1[col][j] * x[j]);
        assert forall|i: int| 0 <= i < a1.len() implies row_value(#[trigger] a1[i], x, n)
            == b1[i] by {
            assert(row_value(next[i], x, n) == side[i]);
            if i > col {
                let f = clearing_factor(a1, col, i);
                let new_terms = Seq::new(n, |j: int| next[i][j] * x[j]);
                let old_terms = Seq::new(n, |j: int| a1[i][j] * x[j]);
                assert(a1[i].len() >= n);
                assert forall|j: int| 0 <= j < n implies new_terms[j] == 1real * old_terms[j] + (
                -f) * pivot_terms[j] by {
                    let (u, v, w) = (a1[i][j], a1[col][j], x[j]);
                    if j < col {
                        assert(a1[col][j] == 0real);
                        assert(1real * (u * w) + (-f) * (0real * w) == u * w) by (nonlinear_arith);
                    } else {
                        assert((u - f * v) * w == 1real * (u * w) + (-f) * (v * w))
                            by (nonlinear_arith);
                    }
                }
                lemma_partial_sum_linear(old_terms, pivot_terms, new_terms, 1real, -f, n);
                let (r, c) = (row_value(a1[i], x, n), row_value(a1[col], x, n));
                assert(1real * r + (-f) * c == r - f * c) by (nonlinear_arith);
            }
        }
        assert forall|i: int| 0 <= i < a.len() implies row_value(#[trigger] a[i], x, n)
            == b[i] by {
            if i == col {
                assert(a1[p] == a[col] && b1[p] == b[col]);
                assert(row_value(a1[p], x, n) == b1[p]);
            } else if i == p {
                assert(a1[col] == a[p] && b1[col] == b[p]);
                assert(row_value(a1[col], x, n) == b1[col]);
            } else {
                assert(a1[i] == a[i] && b1[i] == b[i]);
                assert(row_value(a1[i], x, n) == b1[i]);
            }
        }
    }
}

/// Regular forward elimination keeps the system's shape, reduces the
/// columns it has worked on, and keeps every solution of the system it
/// leaves a solution of the system it began with.
pub proof fn lemma_elimination_is_sound(a: Seq<Seq<real>>, b: Seq<real>, n: nat, k: nat, x: Seq<real>)
    requires
        is_system(a, b, n as int),
        k <= a.len(),
        k <= n,
        is_regular(a, b, n as int, k),
    ensures
        is_system(eliminated(a, b, n as int, k).0, eliminated(a, b, n as int, k).1, n as int),
        eliminated(a, b, n as int, k).0.len() == a.len(),
        is_reduced(eliminated(a, b, n as int, k).0, k as int),
        solves(eliminated(a, b, n as int, k).0, eliminated(a, b, n as int, k).1, x, n) ==> solves(
            a,
            b,
            x,
            n,
        ),
    decreases k,
{
    if k > 0 {
        lemma_elimination_is_sound(a, b, n, (k - 1) as nat, x);
        let before = eliminated(a, b, n as int, (k - 1) as nat);
        lemma_step_is_sound(before.0, before.1, k - 1, n, x);
    }
}

/// The sum of the first `m` terms of row `k` against `x`, where `x` holds
/// at `k` the value that back substitution gives it: the terms before the
/// diagonal vanish, and those after it are what the remainder took away.
proof fn lemma_row_against_substituted(
    row: Seq<real>,
    before: Seq<real>,
    start: real,
    k: int,
    n: nat,
    m: nat,
)
    requires
        0 <= k < n,
        before.len() == n,
        row.len() >= n,
        k < m <= n,
        forall|j: int| 0 <= j < k ==> row[j] == 0real,
    ensures
        ({
            let value = remainder(row, before, start, k + 1, n as int) / row[k];
            let x = before.update(k, value);
            partial_sum(Seq::new(n, |j: int| row[j] * x[j]), m) == row[k] * value + (start
                - remainder(row, before, start, k + 1, m as int))
        }),
    decreases m,
{
    let value = remainder(row, before, start, k + 1, n as int) / row[k];
    let x = before.update(k, value);
    let terms = Seq::new(n, |j: int| row[j] * x[j]);
    if m == k + 1 {
        let nil = Seq::new(n, |j: int| 0real);
        assert forall|j: int| 0 <= j < k implies terms[j] == nil[j] by {
            let w = x[j];
            assert(0real * w == 0real) by (nonlinear_arith);
        }
        lemma_partial_sum_agree(terms, nil, k as nat);
        lemma_partial_sum_zero(n, k as nat);
        assert(terms[k] == row[k] * value);
    } else {
        lemma_row_against_substituted(row, before, start, k, n, (m - 1) as nat);
        assert(terms[m - 1] == row[m - 1] * before[m - 1]);
    }
}

/// Zeros sum to zero.
proof fn lemma_partial_sum_zero(n: nat, k: nat)
    requires
        k <= n,
    ensures
        partial_sum(Seq::new(n, |j: int| 0real), k) == 0real,
    decreases k,
{
    if k > 0 {
        lemma_partial_sum_zero(n, (k - 1) as nat);
    }
}

/// Back substitution solves the rows from `k` on of a square system that
/// is reduced throughout.
pub proof fn lemma_back_substitution_solves(a: Seq<Seq<real>>, b: Seq<real>, n: nat, k: int)
    requires
        is_system(a, b, n as int),
        a.len() == n,
        is_reduced(a, n as int),
        0 <= k <= n,
    ensures
        back_substituted(a, b, n as int, k).len() == n,
        forall|i: int|
            k <= i < n ==> row_value(#[trigger] a[i], back_substituted(a, b, n as int, k), n)
                == b[i],
    decreases n - k,
{
    if k < n {
        lemma_back_substitution_solves(a, b, n, k + 1);
        let before = back_substituted(a, b, n as int, k + 1);
        let x = back_substituted(a, b, n as int, k);
        let row = a[k];
        let value = remainder(row, before, b[k], k + 1, n as int) / row[k];
        assert(real_abs(a[k][k]) > pivot_floor());
        assert(x == before.update(k, value));
        assert(row.len() >= n);
        assert forall|i: int| k <= i < n implies row_value(#[trigger] a[i], x, n) == b[i] by {
            if i == k {
                assert forall|j: int| 0 <= j < k implies row[j] == 0real by {
                    assert(a[k][j] == 0real);
                }
                lemma_row_against_substituted(row, before, b[k], k, n, n);
                let d = row[k];
                let r = remainder(row, before, b[k], k + 1, n as int);
                assert(d * (r / d) == r) by (nonlinear_arith)
                    requires
                        d != 0real,
                ;
            } else {
                let now = Seq::new(n, |j: int| a[i][j] * x[j]);
                let was = Seq::new(n, |j: int| a[i][j] * before[j]);
                assert(a[i][k] == 0real);
                assert forall|j: int| 0 <= j < n implies now[j] == was[j] by {
                    if j == k {
                        let (u, v) = (x[j], before[j]);
                        assert(0real * u == 0real * v) by (nonlinear_arith);
                    }
                }
                lemma_partial_sum_agree(now, was, n);
                assert(row_value(a[i], before, n) == b[i]);
            }
        }
    }
}

/// Elimination and back substitution solve a square system in which every
/// column has a pivot above the floor.
pub proof fn lemma_regular_system_is_solved(a: Seq<Seq<real>>, b: Seq<real>, n: nat)
    requires
        is_system(a, b, n as int),
        a.len() == n,
        is_regular(a, b, n as int, n),
    ensures
        solves(a, b, gaussian_solution(a, b, n as int), n),
        gaussian_solution(a, b, n as int).len() == n,
{
    let x = gaussian_solution(a, b, n as int);
    lemma_elimination_is_sound(a, b, n, n, x);
    let reduced = eliminated(a, b, n as int, n);
    assert(rank_bound(a, n as int) == n);
    lemma_back_substitution_solves(reduced.0, reduced.1, n, 0);
}

/// The magnitude floor as a number.
fn pivot_floor_value() -> (r: Rational)
    ensures
        r@ == pivot_floor(),
{
    Rational::one().div(&Rational::from_int(1_000_000_000_000))
}

/// The row of the partial pivot of column `col`.
fn find_partial_pivot(a: &Vec<Vec<Rational>>, col: usize, n: usize) -> (p: usize)
    requires
        col < a.len(),
        col < n,
        forall|i: int| 0 <= i < a.len() ==> (#[trigger] a@[i])@.len() >= n,
    ensures
        is_partial_pivot(real_rows(a@), col as int, p as int),
{
    let ghost t = real_rows(a@);
    let mut best: usize = col;
    let mut best_size = a[col][col].abs();
    let mut r: usize = col + 1;
    assert(t[col as int][col as int] == a@[col as int]@[col as int]@);
    while r < a.len()
        invariant
            col < r <= a.len(),
            col < n,
            col <= best < r,
            t == real_rows(a@),
            forall|i: int| 0 <= i < a.len() ==> (#[trigger] a@[i])@.len() >= n,
            best_size@ == real_abs(t[best as int][col as int]),
            forall|i: int| col <= i < r ==> best_size@ >= real_abs(#[trigger] t[i][col as int]),
            forall|i: int| col <= i < best ==> best_size@ > real_abs(#[trigger] t[i][col as int]),
        decreases a.len() - r,
    {
        assert(t[r as int][col as int] == a@[r as int]@[col as int]@);
        let size = a[r][col].abs();
        if size.gt(&best_size) {
            best = r;
            best_size = size;
        }
        r += 1;
    }
    best
}

/// Row `i` with column `col` cleared by the pivot row, over the columns
/// from `col` up to `n`.
fn cleared_row(row: &Vec<Rational>, pivot: &Vec<Rational>, col: usize, n: usize) -> (r: Vec<
    Rational,
>)
    requires
        col < n,
        row.len() >= n,
        pivot.len() >= n,
        pivot@[col as int]@ != 0real,
    ensures
        r.len() == row.len(),
        forall|j: int|
            0 <= j < r.len() ==> (#[trigger] r@[j])@ == if col <= j < n {
                row@[j]@ - (row@[col as int]@ / pivot@[col as int]@) * pivot@[j]@
            } else {
                row@[j]@
            },
{
    let factor = row[col].div(&pivot[col]);
    let mut out: Vec<Rational> = Vec::new();
    let mut j: usize = 0;
    while j < row.len()
        invariant
            j <= row.len(),
            col < n,
            row.len() >= n,
            pivot.len() >= n,
            factor@ == row@[col as int]@ / pivot@[col as int]@,
            out.len() == j,
            forall|k: int|
                0 <= k < j ==> (#[trigger] out@[k])@ == if col <= k < n {
                    row@[k]@ - factor@ * pivot@[k]@
                } else {
                    row@[k]@
                },
        decreases row.len() - j,
    {
        let cell = if col <= j && j < n {
            let cut = factor.mul(&pivot[j]);
            row[j].sub(&cut)
        } else {
            row[j].clone()
        };
        out.push(cell);
        j += 1;
    }
    out
}

/// One step of forward elimination, on column `col`.
fn eliminate_step(a: &Vec<Vec<Rational>>, b: &Vec<Rational>, col: usize, n: usize) -> (r: (
    Vec<Vec<Rational>>,
    Vec<Rational>,
))
    requires
        col < a.len(),
        col < n,
        is_system(real_rows(a@), reals(b@), n as int),
    ensures
        (real_rows(r.0@), reals(r.1@)) == eliminate_column(
            real_rows(a@),
            reals(b@),
            col as int,
            n as int,
        ),
        is_system(real_rows(r.0@), reals(r.1@), n as int),
        r.0.len() == a.len(),
{
    let ghost av = real_rows(a@);
    let ghost bv = reals(b@);
    let m = a.len();
    assert forall|i: int| 0 <= i < a.len() implies (#[trigger] a@[i])@.len() >= n by {
        assert(av[i].len() >= n);
    }
    let p = find_partial_pivot(a, col, n);
    proof {
        lemma_partial_pivot_unique(av, col as int, p as int);
        assert(av[p as int][col as int] == a@[p as int]@[col as int]@);
    }
    let floor = pivot_floor_value();
    let size = a[p][col].abs();
    let skip = size.lt(&floor);
    let clear = size.gt(&floor);
    let ghost a1 = exchanged(av, col as int, p as int);
    let ghost b1 = exchanged(bv, col as int, p as int);
    let ghost want = eliminate_column(av, bv, col as int, n as int);
    proof {
        assert(a1[col as int] == av[p as int]);
        assert(a1.len() == av.len());
        assert(b1.len() == bv.len());
    }
    let mut rows: Vec<Vec<Rational>> = Vec::new();
    let mut rhs: Vec<Rational> = Vec::new();
    let mut i: usize = 0;
    while i < m
        invariant
            i <= m,
            m == a.len(),
            col <= p < m,
            col < n,
            av == real_rows(a@),
            bv == reals(b@),
            is_system(av, bv, n as int),
            forall|i: int| 0 <= i < a.len() ==> (#[trigger] a@[i])@.len() >= n,
            a1 == exchanged(av, col as int, p as int),
            b1 == exchanged(bv, col as int, p as int),
            want == eliminate_column(av, bv, col as int, n as int),
            partial_pivot(av, col as int) == p,
            skip == (real_abs(av[p as int][col as int]) < pivot_floor()),
            clear == (real_abs(av[p as int][col as int]) > pivot_floor()),
            rows.len() == i,
            rhs.len() == i,
            forall|k: int| 0 <= k < i ==> reals((#[trigger] rows@[k])@) == want.0[k],
            forall|k: int| 0 <= k < i ==> (#[trigger] rhs@[k])@ == want.1[k],
        decreases m - i,
    {
        let src: usize = if skip {
            i
        } else if i == col {
            p
        } else if i == p {
            col
        } else {
            i
        };
        proof {
            assert(av[src as int] == reals(a@[src as int]@));
            assert(av[p as int] == reals(a@[p as int]@));
            assert(bv[src as int] == b@[src as int]@);
            assert(bv[p as int] == b@[p as int]@);
            assert(av[p as int][col as int] == a@[p as int]@[col as int]@);
            assert(av[src as int][col as int] == a@[src as int]@[col as int]@);
            if !skip {
                assert(a1[i as int] == av[src as int]);
                assert(b1[i as int] == bv[src as int]);
                assert(a1[col as int] == av[p as int]);
                assert(b1[col as int] == bv[p as int]);
            }
        }
        if !skip && clear && i > col {
            let row = cleared_row(&a[src], &a[p], col, n);
            let cut = a[src][col].div(&a[p][col]).mul(&b[p]);
            let side = b[src].sub(&cut);
            proof {
                let target = cleared_below(a1, col as int, n as int)[i as int];
                assert(reals(row@).len() == target.len());
                assert forall|j: int| 0 <= j < target.len() implies reals(row@)[j] == target[j] by {
                    assert(av[src as int][j] == a@[src as int]@[j]@);
                    if col <= j < n {
                        assert(av[p as int][j] == a@[p as int]@[j]@);
                    }
                }
                assert(reals(row@) =~= target);
            }
            rows.push(row);
            rhs.push(side);
        } else {
            let row = duplicate_row(a[src].as_slice());
            rows.push(row);
            rhs.push(b[src].clone());
        }
        i += 1;
    }
    // Right-hand sides beyond the last equation are carried over unchanged.
    while i < b.len()
        invariant
            m <= i <= b.len(),
            m == a.len(),
            col <= p < m,
            bv == reals(b@),
            b1 == exchanged(bv, col as int, p as int),
            want == eliminate_column(av, bv, col as int, n as int),
            av == real_rows(a@),
            partial_pivot(av, col as int) == p,
            a1 == exchanged(av, col as int, p as int),
            rhs.len() == i,
            forall|k: int| 0 <= k < i ==> (#[trigger] rhs@[k])@ == want.1[k],
        decreases b.len() - i,
    {
        proof {
            assert(bv[i as int] == b@[i as int]@);
            assert(b1[i as int] == bv[i as int]);
        }
        rhs.push(b[i].clone());
        i += 1;
    }
    proof {
        assert(want.0.len() == m);
        assert(want.1.len() == b.len());
        assert(real_rows(rows@) =~= want.0);
        assert(reals(rhs@) =~= want.1);
        assert forall|k: int| 0 <= k < want.0.len() implies (#[trigger] want.0[k]).len() >= n by {
            assert(av[k].len() >= n);
            assert(av[col as int].len() >= n);
            assert(av[p as int].len() >= n);
        }
    }
    (rows, rhs)
}

/// The unknowns of the reduced system `a.x = b` by back substitution.
fn back_substitute(a: &Vec<Vec<Rational>>, b: &Vec<Rational>, n: usize) -> (x: Vec<Rational>)
    requires
        is_system(real_rows(a@), reals(b@), n as int),
    ensures
        reals(x@) == back_substituted(real_rows(a@), reals(b@), n as int, 0),
        x.len() == n,
{
    let ghost av = real_rows(a@);
    let ghost bv = reals(b@);
    assert forall|i: int| 0 <= i < a.len() implies (#[trigger] a@[i])@.len() >= n by {
        assert(av[i].len() >= n);
    }
    let bound: usize = if a.len() <= n {
        a.len()
    } else {
        n
    };
    let floor = pivot_floor_value();
    let mut x: Vec<Rational> = Vec::new();
    let mut z: usize = 0;
    while z < n
        invariant
            z <= n,
            x.len() == z,
            forall|j: int| 0 <= j < z ==> (#[trigger] x@[j])@ == 0real,
        decreases n - z,
    {
        x.push(Rational::zero());
        z += 1;
    }
    assert(reals(x@) =~= back_substituted(av, bv, n as int, bound as int));
    let mut i: usize = bound;
    while i > 0
        invariant
            i <= bound,
            bound == rank_bound(av, n as int),
            bound <= a.len(),
            bound <= n,
            av == real_rows(a@),
            bv == reals(b@),
            b.len() >= a.len(),
            forall|i: int| 0 <= i < a.len() ==> (#[trigger] a@[i])@.len() >= n,
            floor@ == pivot_floor(),
            x.len() == n,
            reals(x@) == back_substituted(av, bv, n as int, i as int),
        decreases i,
    {
        i -= 1;
        let ghost before = reals(x@);
        assert(av[i as int][i as int] == a@[i as int]@[i as int]@);
        assert(bv[i as int] == b@[i as int]@);
        if a[i][i].abs().gt(&floor) {
            let mut rest = b[i].clone();
            let mut j: usize = i + 1;
            while j < n
                invariant
                    i < j <= n,
                    i < a.len(),
                    av == real_rows(a@),
                    forall|i: int| 0 <= i < a.len() ==> (#[trigger] a@[i])@.len() >= n,
                    x.len() == n,
                    before == reals(x@),
                    rest@ == remainder(av[i as int], before, bv[i as int], i + 1, j as int),
                decreases n - j,
            {
                assert(av[i as int][j as int] == a@[i as int]@[j as int]@);
                assert(before[j as int] == x@[j as int]@);
                let cut = a[i][j].mul(&x[j]);
                rest = rest.sub(&cut);
                j += 1;
            }
            let value = rest.div(&a[i][i]);
            x.set(i, value);
            assert(reals(x@) =~= before.update(i as int, value@));
        }
    }
    x
}

/// Solves the system `a.x = b` in `n` unknowns by forward elimination with
/// partial pivoting and back substitution, leaving the reduced system in `a`
/// and `b`. Fails exactly when there is no equation or no unknown.
pub fn gaussian_elimination(a: &mut Vec<Vec<Rational>>, b: &mut Vec<Rational>, n: usize) -> (r:
    Result<Vec<Rational>, GameError>)
    requires
        is_system(real_rows(old(a)@), reals(old(b)@), n as int),
    ensures
        r is Err <==> old(a).len() == 0 || n == 0,
        r is Err ==> {
            &&& r->Err_0 == GameError::SolverError(SimplexError::InvalidDimensions)
            &&& real_rows(final(a)@) == real_rows(old(a)@)
            &&& reals(final(b)@) == reals(old(b)@)
        },
        r is Ok ==> {
            &&& (real_rows(final(a)@), reals(final(b)@)) == eliminated(
                real_rows(old(a)@),
                reals(old(b)@),
                n as int,
                rank_bound(real_rows(old(a)@), n as int),
            )
            &&& reals((r->Ok_0)@) == gaussian_solution(
                real_rows(old(a)@),
                reals(old(b)@),
                n as int,
            )
            &&& (r->Ok_0).len() == n
        },
{
    let m = a.len();
    if m == 0 || n == 0 {
        return Err(GameError::SolverError(SimplexError::InvalidDimensions));
    }
    let ghost a0 = real_rows(a@);
    let ghost b0 = reals(b@);
    let bound: usize = if m <= n {
        m
    } else {
        n
    };
    let mut col: usize = 0;
    while col < bound
        invariant
            col <= bound,
            bound <= n,
            bound <= m,
            m == a.len(),
            a0.len() == m,
            is_system(real_rows(a@), reals(b@), n as int),
            (real_rows(a@), reals(b@)) == eliminated(a0, b0, n as int, col as nat),
        decreases bound - col,
    {
        let (rows, rhs) = eliminate_step(a, b, col, n);
        *a = rows;
        *b = rhs;
        col += 1;
    }
    let x = back_substitute(a, b, n);
    proof {
        let reduced = eliminated(a0, b0, n as int, bound as nat);
        assert(real_rows(a@) == reduced.0);
        assert(reals(b@) == reduced.1);
        assert(real_rows(a@).len() == m);
        assert(rank_bound(a0, n as int) == bound);
        assert(rank_bound(real_rows(a@), n as int) == bound);
    }
    Ok(x)
}

} // verus!
