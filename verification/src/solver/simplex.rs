//! The primal Simplex method on a dense tableau of exact rationals.

use crate::exact::rational::{real_abs, Rational};
use crate::exact::vector::{
    duplicate_rows, lemma_partial_sum_agree, lemma_partial_sum_linear, lemma_partial_sum_nonnegative,
    lemma_partial_sum_scale, partial_sum, real_rows, reals, row_value,
};
use vstd::prelude::*;

verus! {

/// Why a linear program could not be solved.
#[derive(Debug, Clone, Copy, PartialEq, Eq, Structural)]
pub enum SimplexError {
    /// The objective can be made arbitrarily large.
    Unbounded,
    /// No assignment meets the constraints.
    Infeasible,
    /// The rows of the problem do not fit together.
    InvalidDimensions,
    /// The iteration cap was reached before optimality.
    MaxIterations,
}

/// Whether objective `c`, constraint rows `a` and right-hand side `b` fit
/// together into one tableau.
pub open spec fn shape_ok(c: Seq<real>, a: Seq<Seq<real>>, b: Seq<real>) -> bool {
    &&& b.len() == a.len()
    &&& forall|i: int| 0 <= i < a.len() ==> (#[trigger] a[i]).len() == c.len()
    &&& c.len() + a.len() + 1 <= usize::MAX
}

/// The entry in row `i`, column `j` of the initial tableau: the constraint
/// coefficients, then an identity block of slack columns, then the right-hand
/// side; the last row holds the negated objective.
pub open spec fn initial_entry(c: Seq<real>, a: Seq<Seq<real>>, b: Seq<real>, i: int, j: int) -> real {
    let n = c.len();
    let m = a.len();
    if i < m {
        if j < n {
            a[i][j]
        } else if j < n + m {
            if j - n == i {
                1real
            } else {
                0real
            }
        } else {
            b[i]
        }
    } else {
        if j < n {
            -c[j]
        } else {
            0real
        }
    }
}

/// The initial tableau of the program `maximize c.x subject to a.x <= b`.
pub open spec fn initial_table(c: Seq<real>, a: Seq<Seq<real>>, b: Seq<real>) -> Seq<Seq<real>> {
    Seq::new(
        a.len() + 1,
        |i: int| Seq::new(c.len() + a.len() + 1, |j: int| initial_entry(c, a, b, i, j)),
    )
}

/// The tolerance below which a tableau entry counts as zero: `1e-10`.
pub open spec fn tolerance() -> real {
    1real / 10000000000real
}

/// Whether `t` is a tableau: at least the objective row, every row as wide as
/// the first, and at least the right-hand-side column.
pub open spec fn is_table(t: Seq<Seq<real>>) -> bool {
    &&& t.len() >= 1
    &&& t[0].len() >= 1
    &&& forall|i: int| 0 <= i < t.len() ==> (#[trigger] t[i]).len() == t[0].len()
}

/// The index of the right-hand-side column.
pub open spec fn rhs_column(t: Seq<Seq<real>>) -> int {
    t[0].len() - 1
}

/// The objective row: the last one.
pub open spec fn objective(t: Seq<Seq<real>>) -> Seq<real> {
    t[t.len() - 1]
}

/// No column has a negative coefficient in the objective row.
pub open spec fn is_optimal(t: Seq<Seq<real>>) -> bool {
    forall|k: int| 0 <= k < rhs_column(t) ==> objective(t)[k] >= 0real
}

/// Column `j` is the entering column: the leftmost among those with the most
/// negative objective coefficient.
pub open spec fn is_entering(t: Seq<Seq<real>>, j: int) -> bool {
    &&& 0 <= j < rhs_column(t)
    &&& objective(t)[j] < 0real
    &&& forall|k: int| 0 <= k < rhs_column(t) ==> objective(t)[j] <= objective(t)[k]
    &&& forall|k: int| 0 <= k < j ==> objective(t)[j] < objective(t)[k]
}

/// The entering column of a tableau that is not optimal.
pub open spec fn entering_column(t: Seq<Seq<real>>) -> int {
    choose|j: int| is_entering(t, j)
}

/// Constraint row `i` takes part in the ratio test for column `c`.
pub open spec fn qualifies(t: Seq<Seq<real>>, c: int, i: int) -> bool {
    0 <= i < t.len() - 1 && t[i][c] > tolerance()
}

/// The ratio of row `i` in the ratio test for column `c`.
pub open spec fn ratio(t: Seq<Seq<real>>, c: int, i: int) -> real {
    t[i][rhs_column(t)] / t[i][c]
}

/// Row `i` is the leaving row for column `c`: the first among the
/// qualifying rows of least ratio.
pub open spec fn is_leaving(t: Seq<Seq<real>>, c: int, i: int) -> bool {
    &&& qualifies(t, c, i)
    &&& forall|k: int| qualifies(t, c, k) ==> ratio(t, c, i) <= ratio(t, c, k)
    &&& forall|k: int| 0 <= k < i && qualifies(t, c, k) ==> ratio(t, c, i) < ratio(t, c, k)
}

/// No row qualifies for column `c`: the objective is unbounded along it.
pub open spec fn is_unbounded_along(t: Seq<Seq<real>>, c: int) -> bool {
    forall|i: int| !qualifies(t, c, i)
}

/// The leaving row for column `c`, where some row qualifies.
pub open spec fn leaving_row(t: Seq<Seq<real>>, c: int) -> int {
    choose|i: int| is_leaving(t, c, i)
}

/// Entry `(i, j)` after a pivot on `(r, c)`: the pivot row is divided by the
/// pivot element, and its multiple that clears column `c` is taken from every
/// other row.
pub open spec fn pivot_entry(t: Seq<Seq<real>>, r: int, c: int, i: int, j: int) -> real {
    let scaled = t[r][j] / t[r][c];
    if i == r {
        scaled
    } else {
        t[i][j] - t[i][c] * scaled
    }
}

/// The tableau after a pivot on `(r, c)`.
pub open spec fn pivoted(t: Seq<Seq<real>>, r: int, c: int) -> Seq<Seq<real>> {
    Seq::new(t.len(), |i: int| Seq::new(t[i].len(), |j: int| pivot_entry(t, r, c, i, j)))
}

/// What at most `fuel` pivots make of tableau `t`: the optimal tableau
/// reached, or the reason for giving up.
pub open spec fn pivoting(t: Seq<Seq<real>>, fuel: nat) -> Result<Seq<Seq<real>>, SimplexError>
    decreases fuel,
{
    if fuel == 0 {
        Err(SimplexError::MaxIterations)
    } else if is_optimal(t) {
        Ok(t)
    } else if is_unbounded_along(t, entering_column(t)) {
        Err(SimplexError::Unbounded)
    } else {
        let c = entering_column(t);
        pivoting(pivoted(t, leaving_row(t, c), c), (fuel - 1) as nat)
    }
}

/// The tableau in which at most `fuel` pivots from `t` end: the optimal
/// one, the one in which no row can leave, or the one after the last pivot.
pub open spec fn reached(t: Seq<Seq<real>>, fuel: nat) -> Seq<Seq<real>>
    decreases fuel,
{
    if fuel == 0 || is_optimal(t) || is_unbounded_along(t, entering_column(t)) {
        t
    } else {
        let c = entering_column(t);
        reached(pivoted(t, leaving_row(t, c), c), (fuel - 1) as nat)
    }
}

/// `x` is `1` within the tolerance.
pub open spec fn is_one(x: real) -> bool {
    real_abs(x - 1real) < tolerance()
}

/// `x` is `0` within the tolerance.
pub open spec fn is_nil(x: real) -> bool {
    real_abs(x) <= tolerance()
}

/// Column `j` is a unit column with its `1` in row `r`, the objective row
/// counted among the rows.
pub open spec fn is_unit_at(t: Seq<Seq<real>>, j: int, r: int) -> bool {
    &&& 0 <= r < t.len()
    &&& is_one(t[r][j])
    &&& forall|i: int| 0 <= i < t.len() && i != r ==> !is_one(t[i][j]) && is_nil(t[i][j])
}

/// Variable `j` is basic in constraint row `r`.
pub open spec fn is_basic_in(t: Seq<Seq<real>>, j: int, r: int) -> bool {
    is_unit_at(t, j, r) && r < t.len() - 1
}

/// The value of variable `j`: the right-hand side of its row where it is
/// basic, zero otherwise.
pub open spec fn basic_value(t: Seq<Seq<real>>, j: int) -> real {
    if exists|r: int| is_basic_in(t, j, r) {
        t[choose|r: int| is_basic_in(t, j, r)][rhs_column(t)]
    } else {
        0real
    }
}

/// The values of the first `n` variables.
pub open spec fn solution(t: Seq<Seq<real>>, n: nat) -> Seq<real> {
    Seq::new(n, |j: int| basic_value(t, j))
}

/// The objective value: the bottom-right entry.
pub open spec fn optimum(t: Seq<Seq<real>>) -> real {
    objective(t)[rhs_column(t)]
}

/// A tableau has at most one entering column.
pub proof fn lemma_entering_unique(t: Seq<Seq<real>>, j: int)
    requires
        is_entering(t, j),
    ensures
        entering_column(t) == j,
        !is_optimal(t),
{
    let k = entering_column(t);
    assert(is_entering(t, k));
    if k < j {
        assert(objective(t)[j] < objective(t)[k]);
    } else if j < k {
        assert(objective(t)[k] < objective(t)[j]);
    }
    assert(objective(t)[j] < 0real);
}

/// A column has at most one leaving row.
pub proof fn lemma_leaving_unique(t: Seq<Seq<real>>, c: int, i: int)
    requires
        is_leaving(t, c, i),
    ensures
        leaving_row(t, c) == i,
        !is_unbounded_along(t, c),
{
    let k = leaving_row(t, c);
    assert(is_leaving(t, c, k));
    assert(qualifies(t, c, i));
    assert(qualifies(t, c, k));
    if k < i {
        assert(ratio(t, c, i) < ratio(t, c, k));
    } else if i < k {
        assert(ratio(t, c, k) < ratio(t, c, i));
    }
}

/// A variable is basic in at most one row.
pub proof fn lemma_basic_unique(t: Seq<Seq<real>>, j: int, r: int)
    requires
        is_basic_in(t, j, r),
    ensures
        basic_value(t, j) == t[r][rhs_column(t)],
{
    let k = choose|k: int| is_basic_in(t, j, k);
    assert(is_basic_in(t, j, k));
    if k != r {
        assert(!is_one(t[k][j]));
    }
}

/// Every constraint row has a right-hand side that is not negative: the
/// basic solution of the tableau is feasible.
pub open spec fn is_feasible(t: Seq<Seq<real>>) -> bool {
    forall|i: int| 0 <= i < t.len() - 1 ==> (#[trigger] t[i])[rhs_column(t)] >= 0real
}

/// No constraint row has an entry in column `c` that is positive but within
/// the tolerance: every row that could bound the entering variable takes
/// part in the ratio test.
pub open spec fn is_clear(t: Seq<Seq<real>>, c: int) -> bool {
    forall|i: int| 0 <= i < t.len() - 1 ==> !(0real < (#[trigger] t[i])[c] <= tolerance())
}

/// Whether every entering column met in at most `fuel` pivots from `t` is
/// clear.
pub open spec fn stays_clear(t: Seq<Seq<real>>, fuel: nat) -> bool
    decreases fuel,
{
    if fuel == 0 || is_optimal(t) || is_unbounded_along(t, entering_column(t)) {
        true
    } else {
        let c = entering_column(t);
        is_clear(t, c) && stays_clear(pivoted(t, leaving_row(t, c), c), (fuel - 1) as nat)
    }
}

/// Among the first `n` entries of `s`, the leftmost of the least.
proof fn lemma_leftmost_least(s: Seq<real>, n: nat) -> (j: int)
    requires
        0 < n <= s.len(),
    ensures
        0 <= j < n,
        forall|k: int| 0 <= k < n ==> s[j] <= s[k],
        forall|k: int| 0 <= k < j ==> s[j] < s[k],
    decreases n,
{
    if n == 1 {
        0
    } else {
        let before = lemma_leftmost_least(s, (n - 1) as nat);
        if s[n - 1] < s[before] {
            n - 1
        } else {
            before
        }
    }
}

/// A tableau that is not optimal has an entering column.
pub proof fn lemma_entering_exists(t: Seq<Seq<real>>)
    requires
        is_table(t),
        !is_optimal(t),
    ensures
        is_entering(t, entering_column(t)),
{
    let obj = objective(t);
    let w = rhs_column(t);
    let k = choose|k: int| 0 <= k < w && obj[k] < 0real;
    assert(obj.len() == t[0].len());
    let j = lemma_leftmost_least(obj, w as nat);
    assert(obj[j] <= obj[k]);
    assert(is_entering(t, j));
}

/// Among the first `n` rows, the first of least ratio of those that
/// qualify for column `c`.
proof fn lemma_first_least_ratio(t: Seq<Seq<real>>, c: int, n: nat) -> (r: int)
    requires
        n <= t.len() - 1,
        exists|i: int| 0 <= i < n && qualifies(t, c, i),
    ensures
        0 <= r < n,
        qualifies(t, c, r),
        forall|k: int| 0 <= k < n && qualifies(t, c, k) ==> ratio(t, c, r) <= ratio(t, c, k),
        forall|k: int| 0 <= k < r && qualifies(t, c, k) ==> ratio(t, c, r) < ratio(t, c, k),
    decreases n,
{
    if exists|i: int| 0 <= i < n - 1 && qualifies(t, c, i) {
        let before = lemma_first_least_ratio(t, c, (n - 1) as nat);
        if qualifies(t, c, n - 1) && ratio(t, c, n - 1) < ratio(t, c, before) {
            n - 1
        } else {
            before
        }
    } else {
        let i = choose|i: int| 0 <= i < n && qualifies(t, c, i);
        assert(i == n - 1);
        n - 1
    }
}

/// A column along which the objective is bounded has a leaving row.
pub proof fn lemma_leaving_exists(t: Seq<Seq<real>>, c: int)
    requires
        t.len() >= 1,
        !is_unbounded_along(t, c),
    ensures
        is_leaving(t, c, leaving_row(t, c)),
{
    let i = choose|i: int| qualifies(t, c, i);
    let r = lemma_first_least_ratio(t, c, (t.len() - 1) as nat);
    assert(is_leaving(t, c, r));
}

/// A pivot keeps the shape of the tableau.
pub proof fn lemma_pivot_keeps_shape(t: Seq<Seq<real>>, r: int, c: int)
    requires
        is_table(t),
    ensures
        is_table(pivoted(t, r, c)),
        pivoted(t, r, c).len() == t.len(),
        rhs_column(pivoted(t, r, c)) == rhs_column(t),
{
    let u = pivoted(t, r, c);
    assert(u[0].len() == t[0].len());
    assert forall|i: int| 0 <= i < u.len() implies (#[trigger] u[i]).len() == u[0].len() by {
        assert(t[i].len() == t[0].len());
    }
}

/// A pivot on the leaving row keeps a feasible tableau feasible, where the
/// entering column is clear.
pub proof fn lemma_pivot_keeps_feasible(t: Seq<Seq<real>>, r: int, c: int)
    requires
        is_table(t),
        0 <= c < rhs_column(t),
        is_leaving(t, c, r),
        is_feasible(t),
        is_clear(t, c),
    ensures
        is_feasible(pivoted(t, r, c)),
{
    let u = pivoted(t, r, c);
    let rhs = rhs_column(t);
    lemma_pivot_keeps_shape(t, r, c);
    let top = t[r][rhs];
    let pivot = t[r][c];
    let step = top / pivot;
    assert(qualifies(t, c, r));
    assert(t[r].len() == t[0].len());
    assert(t[r][rhs] >= 0real);
    assert(step >= 0real) by (nonlinear_arith)
        requires
            step == top / pivot,
            top >= 0real,
            pivot > 0real,
    ;
    assert forall|i: int| 0 <= i < u.len() - 1 implies (#[trigger] u[i])[rhs_column(u)]
        >= 0real by {
        assert(t[i].len() == t[0].len());
        assert(u[i][rhs] == pivot_entry(t, r, c, i, rhs));
        if i != r {
            let x = t[i][rhs];
            let y = t[i][c];
            assert(t[i][rhs] >= 0real);
            if y <= 0real {
                assert(y * step <= 0real) by (nonlinear_arith)
                    requires
                        y <= 0real,
                        step >= 0real,
                ;
            } else {
                assert(t[i][c] > tolerance());
                assert(qualifies(t, c, i));
                assert(ratio(t, c, r) <= ratio(t, c, i));
                assert(y * step <= x) by (nonlinear_arith)
                    requires
                        step <= x / y,
                        y > 0real,
                ;
            }
        }
    }
}

/// Pivoting from a feasible tableau ends in a feasible one, where every
/// entering column on the way is clear.
pub proof fn lemma_pivoting_keeps_feasible(t: Seq<Seq<real>>, fuel: nat)
    requires
        is_table(t),
        is_feasible(t),
        stays_clear(t, fuel),
        pivoting(t, fuel) is Ok,
    ensures
        is_table(pivoting(t, fuel)->Ok_0),
        is_feasible(pivoting(t, fuel)->Ok_0),
        is_optimal(pivoting(t, fuel)->Ok_0),
    decreases fuel,
{
    if fuel > 0 && !is_optimal(t) {
        let c = entering_column(t);
        lemma_entering_exists(t);
        lemma_leaving_exists(t, c);
        let r = leaving_row(t, c);
        lemma_pivot_keeps_shape(t, r, c);
        lemma_pivot_keeps_feasible(t, r, c);
        lemma_pivoting_keeps_feasible(pivoted(t, r, c), (fuel - 1) as nat);
    }
}

/// The variables of a feasible tableau have values that are not negative.
pub proof fn lemma_solution_of_feasible(t: Seq<Seq<real>>, n: nat)
    requires
        is_feasible(t),
    ensures
        forall|j: int| 0 <= j < n ==> solution(t, n)[j] >= 0real,
{
    assert forall|j: int| 0 <= j < n implies solution(t, n)[j] >= 0real by {
        if exists|r: int| is_basic_in(t, j, r) {
            let r = choose|r: int| is_basic_in(t, j, r);
            assert(t[r][rhs_column(t)] >= 0real);
        }
    }
}

/// The point `x` with the slack of every constraint behind it: the values
/// of all columns of the tableau but the last.
pub open spec fn with_slacks(a: Seq<Seq<real>>, b: Seq<real>, x: Seq<real>) -> Seq<real> {
    Seq::new(
        x.len() + a.len(),
        |j: int|
            if j < x.len() {
                x[j]
            } else {
                b[j - x.len()] - row_value(a[j - x.len()], x, x.len())
            },
    )
}

/// Whether `x` is a feasible point of the program `a.x <= b`, `x >= 0`.
pub open spec fn is_feasible_point(a: Seq<Seq<real>>, b: Seq<real>, x: Seq<real>) -> bool {
    &&& forall|j: int| 0 <= j < x.len() ==> x[j] >= 0real
    &&& forall|i: int| 0 <= i < a.len() ==> row_value(#[trigger] a[i], x, x.len()) <= b[i]
}

/// Whether the tableau `t` holds of the column values `y` and the objective
/// value `v`: every constraint row, taken with `y`, gives its right-hand
/// side, and so does the objective row with `v` added.
pub open spec fn represents(t: Seq<Seq<real>>, y: Seq<real>, v: real) -> bool {
    let w = rhs_column(t);
    &&& forall|i: int| 0 <= i < t.len() - 1 ==> row_value(#[trigger] t[i], y, w as nat) == t[i][w]
    &&& v + row_value(objective(t), y, w as nat) == objective(t)[w]
}

/// The sum of terms that vanish but for one.
proof fn lemma_sum_with_one_term(terms: Seq<real>, from: nat, at: int, value: real, upto: nat)
    requires
        from <= upto <= terms.len(),
        from <= at,
        forall|j: int| from <= j < upto ==> terms[j] == if j == at { value } else { 0real },
    ensures
        partial_sum(terms, upto) == partial_sum(terms, from) + if at < upto { value } else { 0real },
    decreases upto,
{
    if upto > from {
        lemma_sum_with_one_term(terms, from, at, value, (upto - 1) as nat);
    }
}

/// The initial tableau holds of every point with its slacks and its
/// objective value.
pub proof fn lemma_initial_table_represents(
    c: Seq<real>,
    a: Seq<Seq<real>>,
    b: Seq<real>,
    x: Seq<real>,
)
    requires
        shape_ok(c, a, b),
        x.len() == c.len(),
    ensures
        represents(initial_table(c, a, b), with_slacks(a, b, x), row_value(c, x, c.len())),
{
    let n = c.len();
    let m = a.len();
    let t = initial_table(c, a, b);
    let y = with_slacks(a, b, x);
    let w = (n + m) as nat;
    assert(rhs_column(t) == w);
    assert forall|i: int| 0 <= i < t.len() - 1 implies row_value(#[trigger] t[i], y, w)
        == t[i][w as int] by {
        let terms = Seq::new(w, |j: int| t[i][j] * y[j]);
        let plain = Seq::new(n, |j: int| a[i][j] * x[j]);
        assert(a[i].len() == n);
        lemma_partial_sum_agree(terms, plain, n);
        let slack = b[i] - row_value(a[i], x, n);
        assert forall|j: int| n <= j < w implies terms[j] == if j == n + i {
            slack
        } else {
            0real
        } by {
            let u = y[j];
            assert(1real * u == u && 0real * u == 0real) by (nonlinear_arith);
        }
        lemma_sum_with_one_term(terms, n, n + i, slack, w);
    }
    let terms = Seq::new(w, |j: int| objective(t)[j] * y[j]);
    let plain = Seq::new(n, |j: int| c[j] * x[j]);
    let negated = Seq::new(n, |j: int| (-1real) * plain[j]);
    assert forall|j: int| 0 <= j < n implies terms[j] == negated[j] by {
        let (u, v) = (c[j], x[j]);
        assert((-u) * v == (-1real) * (u * v)) by (nonlinear_arith);
    }
    lemma_partial_sum_agree(terms, negated, n);
    lemma_partial_sum_scale(plain, negated, -1real, n);
    assert forall|j: int| n <= j < w implies terms[j] == if j == w { 0real } else { 0real } by {
        let u = y[j];
        assert(0real * u == 0real) by (nonlinear_arith);
    }
    lemma_sum_with_one_term(terms, n, w as int, 0real, w);
    let value = row_value(c, x, n);
    assert((-1real) * value == -value) by (nonlinear_arith);
}

/// What a tableau holds of, the tableau after a pivot holds of too.
pub proof fn lemma_pivot_keeps_representation(
    t: Seq<Seq<real>>,
    r: int,
    c: int,
    y: Seq<real>,
    v: real,
)
    requires
        is_table(t),
        0 <= r < t.len() - 1,
        0 <= c < rhs_column(t),
        t[r][c] != 0real,
        represents(t, y, v),
    ensures
        represents(pivoted(t, r, c), y, v),
{
    let u = pivoted(t, r, c);
    let w = rhs_column(t);
    let p = t[r][c];
    lemma_pivot_keeps_shape(t, r, c);
    assert(t[r].len() == t[0].len());
    let old_pivot = Seq::new(w as nat, |j: int| t[r][j] * y[j]);
    let new_pivot = Seq::new(w as nat, |j: int| u[r][j] * y[j]);
    assert forall|j: int| 0 <= j < w implies new_pivot[j] == (1real / p) * old_pivot[j] by {
        let (e, z) = (t[r][j], y[j]);
        assert((e / p) * z == (1real / p) * (e * z)) by (nonlinear_arith)
            requires
                p != 0real,
        ;
    }
    lemma_partial_sum_scale(old_pivot, new_pivot, 1real / p, w as nat);
    let side = t[r][w];
    assert(row_value(t[r], y, w as nat) == side);
    assert((1real / p) * side == side / p) by (nonlinear_arith)
        requires
            p != 0real,
    ;
    assert(row_value(u[r], y, w as nat) == u[r][w]);
    assert forall|i: int| 0 <= i < u.len() && i != r implies row_value(
        #[trigger] u[i],
        y,
        w as nat,
    ) == row_value(t[i], y, w as nat) - t[i][c] * (side / p) && u[i][w] == t[i][w] - t[i][c] * (side
        / p) by {
        assert(t[i].len() == t[0].len());
        let f = t[i][c];
        let old_row = Seq::new(w as nat, |j: int| t[i][j] * y[j]);
        let new_row = Seq::new(w as nat, |j: int| u[i][j] * y[j]);
        assert forall|j: int| 0 <= j < w implies new_row[j] == 1real * old_row[j] + (-f)
            * new_pivot[j] by {
            let (e, g, z) = (t[i][j], u[r][j], y[j]);
            assert(u[i][j] == e - f * g);
            assert((e - f * g) * z == 1real * (e * z) + (-f) * (g * z)) by (nonlinear_arith);
        }
        lemma_partial_sum_linear(old_row, new_pivot, new_row, 1real, -f, w as nat);
        let (x1, x2) = (partial_sum(old_row, w as nat), partial_sum(new_pivot, w as nat));
        assert(1real * x1 + (-f) * x2 == x1 - f * x2) by (nonlinear_arith);
    }
    assert forall|i: int| 0 <= i < u.len() - 1 implies row_value(#[trigger] u[i], y, w as nat)
        == u[i][w] by {
        if i != r {
            assert(row_value(t[i], y, w as nat) == t[i][w]);
        }
    }
    let last = t.len() - 1;
    assert(objective(u) == u[last] && objective(t) == t[last]);
}

/// The tableau in which pivoting ends holds of whatever the tableau it
/// began with holds of.
pub proof fn lemma_pivoting_keeps_representation(t: Seq<Seq<real>>, fuel: nat, y: Seq<real>, v: real)
    requires
        is_table(t),
        represents(t, y, v),
        pivoting(t, fuel) is Ok,
    ensures
        is_table(pivoting(t, fuel)->Ok_0),
        represents(pivoting(t, fuel)->Ok_0, y, v),
        is_optimal(pivoting(t, fuel)->Ok_0),
    decreases fuel,
{
    if fuel > 0 && !is_optimal(t) {
        let c = entering_column(t);
        lemma_entering_exists(t);
        lemma_leaving_exists(t, c);
        let r = leaving_row(t, c);
        assert(qualifies(t, c, r));
        lemma_pivot_keeps_shape(t, r, c);
        lemma_pivot_keeps_representation(t, r, c, y, v);
        lemma_pivoting_keeps_representation(pivoted(t, r, c), (fuel - 1) as nat, y, v);
    }
}

/// The value that the method ends with is an upper bound of the objective:
/// no feasible point of the program has a larger objective value.
pub proof fn lemma_optimum_bounds_objective(
    c: Seq<real>,
    a: Seq<Seq<real>>,
    b: Seq<real>,
    x: Seq<real>,
    fuel: nat,
)
    requires
        shape_ok(c, a, b),
        x.len() == c.len(),
        is_feasible_point(a, b, x),
        pivoting(initial_table(c, a, b), fuel) is Ok,
    ensures
        row_value(c, x, c.len()) <= optimum(pivoting(initial_table(c, a, b), fuel)->Ok_0),
{
    let start = initial_table(c, a, b);
    let y = with_slacks(a, b, x);
    let v = row_value(c, x, c.len());
    assert(is_table(start));
    lemma_initial_table_represents(c, a, b, x);
    lemma_pivoting_keeps_representation(start, fuel, y, v);
    let last = pivoting(start, fuel)->Ok_0;
    let w = rhs_column(last);
    lemma_pivot_count_keeps_width(start, fuel);
    let terms = Seq::new(w as nat, |j: int| objective(last)[j] * y[j]);
    assert forall|j: int| 0 <= j < terms.len() implies terms[j] >= 0real by {
        let (e, z) = (objective(last)[j], y[j]);
        assert(e >= 0real);
        assert(z >= 0real);
        assert(e * z >= 0real) by (nonlinear_arith)
            requires
                e >= 0real,
                z >= 0real,
        ;
    }
    lemma_partial_sum_nonnegative(terms, w as nat);
}

/// Pivoting keeps the width of the tableau.
pub proof fn lemma_pivot_count_keeps_width(t: Seq<Seq<real>>, fuel: nat)
    requires
        is_table(t),
        pivoting(t, fuel) is Ok,
    ensures
        rhs_column(pivoting(t, fuel)->Ok_0) == rhs_column(t),
        pivoting(t, fuel)->Ok_0.len() == t.len(),
    decreases fuel,
{
    if fuel > 0 && !is_optimal(t) {
        let c = entering_column(t);
        let r = leaving_row(t, c);
        lemma_pivot_keeps_shape(t, r, c);
        lemma_pivot_count_keeps_width(pivoted(t, r, c), (fuel - 1) as nat);
    }
}

/// A linear program in tableau form: maximize a linear objective subject to
/// `a.x <= b`, `x >= 0`.
#[derive(Debug)]
pub struct Simplex {
    tableau: Vec<Vec<Rational>>,
    num_vars: usize,
    num_constraints: usize,
    max_iterations: usize,
}

impl Simplex {
    /// The tableau has a row for every constraint and one for the objective,
    /// each with a column for every variable, every slack and the right-hand
    /// side.
    #[verifier::type_invariant]
    spec fn well_formed(&self) -> bool {
        &&& self.num_vars + self.num_constraints + 1 <= usize::MAX
        &&& self.tableau@.len() == self.num_constraints + 1
        &&& forall|i: int|
            0 <= i < self.tableau@.len() ==> (#[trigger] self.tableau@[i])@.len() == self.num_vars
                + self.num_constraints + 1
    }

    /// The tableau as rows of reals.
    pub closed spec fn table(&self) -> Seq<Seq<real>> {
        real_rows(self.tableau@)
    }

    /// The number of decision variables.
    pub closed spec fn vars(&self) -> nat {
        self.num_vars as nat
    }

    /// The number of constraints.
    pub closed spec fn constraints(&self) -> nat {
        self.num_constraints as nat
    }

    /// The most pivots that `solve` will make.
    pub closed spec fn iteration_cap(&self) -> nat {
        self.max_iterations as nat
    }

    /// The entry of the initial tableau at row `i`, column `j`.
    fn initial_cell(c: &[Rational], a: &[Vec<Rational>], b: &[Rational], i: usize, j: usize) -> (r:
        Rational)
        requires
            shape_ok(reals(c@), real_rows(a@), reals(b@)),
            i <= a.len(),
            j <= c.len() + a.len(),
        ensures
            r@ == initial_entry(reals(c@), real_rows(a@), reals(b@), i as int, j as int),
    {
        let n = c.len();
        let m = a.len();
        if i < m {
            assert(real_rows(a@)[i as int].len() == n);
            if j < n {
                a[i][j].clone()
            } else if j < n + m {
                if j - n == i {
                    Rational::one()
                } else {
                    Rational::zero()
                }
            } else {
                b[i].clone()
            }
        } else {
            if j < n {
                c[j].neg()
            } else {
                Rational::zero()
            }
        }
    }

    /// Builds the tableau for `maximize c.x subject to a.x <= b, x >= 0`.
    /// Fails exactly when the three parts do not fit together.
    pub fn new(c: &[Rational], a: &[Vec<Rational>], b: &[Rational]) -> (r: Result<
        Simplex,
        SimplexError,
    >)
        ensures
            r is Ok <==> shape_ok(reals(c@), real_rows(a@), reals(b@)),
            r is Err ==> r->Err_0 == SimplexError::InvalidDimensions,
            r is Ok ==> {
                let s = r->Ok_0;
                &&& s.table() == initial_table(reals(c@), real_rows(a@), reals(b@))
                &&& s.vars() == c.len()
                &&& s.constraints() == a.len()
                &&& s.iteration_cap() == 1000
            },
    {
        let num_vars = c.len();
        let num_constraints = a.len();
        if b.len() != num_constraints {
            return Err(SimplexError::InvalidDimensions);
        }
        let mut k: usize = 0;
        while k < num_constraints
            invariant
                k <= num_constraints,
                num_constraints == a.len(),
                num_vars == c.len(),
                forall|i: int| 0 <= i < k ==> (#[trigger] a@[i])@.len() == num_vars,
            decreases num_constraints - k,
        {
            if a[k].len() != num_vars {
                proof {
                    assert(real_rows(a@)[k as int].len() != reals(c@).len());
                }
                return Err(SimplexError::InvalidDimensions);
            }
            k += 1;
        }
        if num_vars > usize::MAX - 1 || num_constraints > usize::MAX - 1 - num_vars {
            return Err(SimplexError::InvalidDimensions);
        }
        let total_cols: usize = num_vars + num_constraints + 1;
        let total_rows: usize = num_constraints + 1;
        proof {
            assert forall|i: int| 0 <= i < real_rows(a@).len() implies (#[trigger] real_rows(
                a@,
            )[i]).len() == reals(c@).len() by {
                assert(a@[i]@.len() == num_vars);
            }
        }
        let ghost cv = reals(c@);
        let ghost av = real_rows(a@);
        let ghost bv = reals(b@);
        let mut tableau: Vec<Vec<Rational>> = Vec::new();
        let mut i: usize = 0;
        while i < total_rows
            invariant
                i <= total_rows,
                total_rows == a.len() + 1,
                total_cols == c.len() + a.len() + 1,
                cv == reals(c@),
                av == real_rows(a@),
                bv == reals(b@),
                shape_ok(cv, av, bv),
                tableau.len() == i,
                forall|p: int|
                    0 <= p < i ==> (#[trigger] tableau@[p])@.len() == total_cols,
                forall|p: int, q: int|
                    0 <= p < i && 0 <= q < total_cols ==> (#[trigger] tableau@[p]@[q])@
                        == initial_entry(cv, av, bv, p, q),
            decreases total_rows - i,
        {
            let mut row: Vec<Rational> = Vec::new();
            let mut j: usize = 0;
            while j < total_cols
                invariant
                    j <= total_cols,
                    i < total_rows,
                    total_rows == a.len() + 1,
                    total_cols == c.len() + a.len() + 1,
                    cv == reals(c@),
                    av == real_rows(a@),
                    bv == reals(b@),
                    shape_ok(cv, av, bv),
                    row.len() == j,
                    forall|q: int|
                        0 <= q < j ==> (#[trigger] row@[q])@ == initial_entry(cv, av, bv, i as int, q),
                decreases total_cols - j,
            {
                row.push(Simplex::initial_cell(c, a, b, i, j));
                j += 1;
            }
            tableau.push(row);
            i += 1;
        }
        let s = Simplex { tableau, num_vars, num_constraints, max_iterations: 1000 };
        proof {
            assert(s.table() =~~= initial_table(cv, av, bv));
        }
        Ok(s)
    }

    /// Sets the most pivots that `solve` will make.
    pub fn max_iterations(self, max: usize) -> (r: Simplex)
        ensures
            r.table() == self.table(),
            r.vars() == self.vars(),
            r.constraints() == self.constraints(),
            r.iteration_cap() == max,
    {
        proof {
            use_type_invariant(&self);
        }
        let Simplex { tableau, num_vars, num_constraints, max_iterations: _ } = self;
        Simplex { tableau, num_vars, num_constraints, max_iterations: max }
    }

    /// The current tableau.
    pub fn tableau(&self) -> (r: &Vec<Vec<Rational>>)
        ensures
            real_rows(r@) == self.table(),
    {
        &self.tableau
    }

    /// The tolerance as a number.
    fn tolerance_value() -> (r: Rational)
        ensures
            r@ == tolerance(),
    {
        Rational::one().div(&Rational::from_int(10_000_000_000))
    }

    /// The entering column: the leftmost column, the right-hand side apart,
    /// whose objective coefficient is the most negative; none where the
    /// tableau is optimal.
    pub fn find_pivot_column(&self) -> (r: Option<usize>)
        ensures
            r is None ==> is_optimal(self.table()),
            r is Some ==> is_entering(self.table(), r->Some_0 as int),
    {
        proof {
            use_type_invariant(self);
        }
        let ghost t = self.table();
        let m = self.num_constraints;
        let width = self.num_vars + self.num_constraints;
        let mut best: Option<usize> = None;
        let mut j: usize = 0;
        while j < width
            invariant
                j <= width,
                self.well_formed(),
                m == self.num_constraints,
                width == self.num_vars + self.num_constraints,
                t == self.table(),
                best is None ==> forall|k: int| 0 <= k < j ==> t[m as int][k] >= 0real,
                best is Some ==> {
                    let b = best->Some_0 as int;
                    &&& 0 <= b < j
                    &&& t[m as int][b] < 0real
                    &&& forall|k: int| 0 <= k < j ==> t[m as int][b] <= t[m as int][k]
                    &&& forall|k: int| 0 <= k < b ==> t[m as int][b] < t[m as int][k]
                },
            decreases width - j,
        {
            assert(t[m as int][j as int] == self.tableau@[m as int]@[j as int]@);
            let better = match best {
                None => self.tableau[m][j].is_negative(),
                Some(b) => {
                    assert(t[m as int][b as int] == self.tableau@[m as int]@[b as int]@);
                    self.tableau[m][j].lt(&self.tableau[m][b])
                },
            };
            if better {
                best = Some(j);
            }
            j += 1;
        }
        best
    }

    /// The leaving row for `pivot_col`: the first constraint row of least
    /// ratio among those whose entry in that column is above the tolerance.
    /// Fails as unbounded exactly when no row has such an entry.
    pub fn find_pivot_row(&self, pivot_col: usize) -> (r: Result<usize, SimplexError>)
        requires
            pivot_col <= self.vars() + self.constraints(),
        ensures
            r is Ok ==> is_leaving(self.table(), pivot_col as int, r->Ok_0 as int),
            r is Err ==> r->Err_0 == SimplexError::Unbounded && is_unbounded_along(
                self.table(),
                pivot_col as int,
            ),
    {
        proof {
            use_type_invariant(self);
        }
        let ghost t = self.table();
        let ghost c = pivot_col as int;
        let m = self.num_constraints;
        let rhs = self.num_vars + self.num_constraints;
        let eps = Simplex::tolerance_value();
        let mut best: Option<usize> = None;
        let mut best_ratio = Rational::zero();
        let mut i: usize = 0;
        while i < m
            invariant
                i <= m,
                self.well_formed(),
                m == self.num_constraints,
                rhs == self.num_vars + self.num_constraints,
                pivot_col <= rhs,
                c == pivot_col as int,
                t == self.table(),
                rhs_column(t) == rhs,
                t.len() == m + 1,
                eps@ == tolerance(),
                best is None ==> forall|k: int| 0 <= k < i ==> !qualifies(t, c, k),
                best is Some ==> {
                    let b = best->Some_0 as int;
                    &&& 0 <= b < i
                    &&& qualifies(t, c, b)
                    &&& best_ratio@ == ratio(t, c, b)
                    &&& forall|k: int|
                        0 <= k < i && qualifies(t, c, k) ==> ratio(t, c, b) <= ratio(t, c, k)
                    &&& forall|k: int|
                        0 <= k < b && qualifies(t, c, k) ==> ratio(t, c, b) < ratio(t, c, k)
                },
            decreases m - i,
        {
            assert(t[i as int][c] == self.tableau@[i as int]@[c]@);
            assert(t[i as int][rhs as int] == self.tableau@[i as int]@[rhs as int]@);
            if self.tableau[i][pivot_col].gt(&eps) {
                let r = self.tableau[i][rhs].div(&self.tableau[i][pivot_col]);
                let better = match best {
                    None => true,
                    Some(_) => r.lt(&best_ratio),
                };
                if better {
                    best = Some(i);
                    best_ratio = r;
                }
            }
            i += 1;
        }
        match best {
            Some(b) => Ok(b),
            None => Err(SimplexError::Unbounded),
        }
    }

    /// Pivots on row `pivot_row`, column `pivot_col`.
    pub fn pivot(&mut self, pivot_row: usize, pivot_col: usize)
        requires
            pivot_row <= old(self).constraints(),
            pivot_col <= old(self).vars() + old(self).constraints(),
            old(self).table()[pivot_row as int][pivot_col as int] != 0real,
        ensures
            final(self).table() == pivoted(old(self).table(), pivot_row as int, pivot_col as int),
            final(self).vars() == old(self).vars(),
            final(self).constraints() == old(self).constraints(),
            final(self).iteration_cap() == old(self).iteration_cap(),
    {
        proof {
            use_type_invariant(&*self);
        }
        let ghost t = self.table();
        let ghost r = pivot_row as int;
        let ghost c = pivot_col as int;
        let rows = self.num_constraints + 1;
        let cols = self.num_vars + self.num_constraints + 1;
        assert(t[r][c] == self.tableau@[r]@[c]@);
        let mut scaled: Vec<Rational> = Vec::new();
        let mut j: usize = 0;
        while j < cols
            invariant
                j <= cols,
                self.well_formed(),
                cols == self.num_vars + self.num_constraints + 1,
                pivot_row <= self.num_constraints,
                pivot_col < cols,
                r == pivot_row as int,
                c == pivot_col as int,
                t == self.table(),
                t[r][c] != 0real,
                scaled.len() == j,
                forall|q: int| 0 <= q < j ==> (#[trigger] scaled@[q])@ == t[r][q] / t[r][c],
            decreases cols - j,
        {
            assert(t[r][c] == self.tableau@[r]@[c]@);
            assert(t[r][j as int] == self.tableau@[r]@[j as int]@);
            scaled.push(self.tableau[pivot_row][j].div(&self.tableau[pivot_row][pivot_col]));
            j += 1;
        }
        let mut next: Vec<Vec<Rational>> = Vec::new();
        let mut i: usize = 0;
        while i < rows
            invariant
                i <= rows,
                self.well_formed(),
                rows == self.num_constraints + 1,
                cols == self.num_vars + self.num_constraints + 1,
                pivot_row < rows,
                pivot_col < cols,
                r == pivot_row as int,
                c == pivot_col as int,
                t == self.table(),
                scaled.len() == cols,
                forall|q: int| 0 <= q < cols ==> (#[trigger] scaled@[q])@ == t[r][q] / t[r][c],
                next.len() == i,
                forall|p: int| 0 <= p < i ==> (#[trigger] next@[p])@.len() == cols,
                forall|p: int, q: int|
                    0 <= p < i && 0 <= q < cols ==> (#[trigger] next@[p]@[q])@ == pivot_entry(
                        t,
                        r,
                        c,
                        p,
                        q,
                    ),
            decreases rows - i,
        {
            let mut row: Vec<Rational> = Vec::new();
            let mut j: usize = 0;
            while j < cols
                invariant
                    j <= cols,
                    i < rows,
                    self.well_formed(),
                    rows == self.num_constraints + 1,
                    cols == self.num_vars + self.num_constraints + 1,
                    pivot_row < rows,
                    pivot_col < cols,
                    r == pivot_row as int,
                    c == pivot_col as int,
                    t == self.table(),
                    scaled.len() == cols,
                    forall|q: int| 0 <= q < cols ==> (#[trigger] scaled@[q])@ == t[r][q] / t[r][c],
                    row.len() == j,
                    forall|q: int|
                        0 <= q < j ==> (#[trigger] row@[q])@ == pivot_entry(t, r, c, i as int, q),
                decreases cols - j,
            {
                assert(t[i as int][j as int] == self.tableau@[i as int]@[j as int]@);
                assert(t[i as int][c] == self.tableau@[i as int]@[c]@);
                let cell = if i == pivot_row {
                    scaled[j].clone()
                } else {
                    let cut = self.tableau[i][pivot_col].mul(&scaled[j]);
                    self.tableau[i][j].sub(&cut)
                };
                row.push(cell);
                j += 1;
            }
            next.push(row);
            i += 1;
        }
        self.tableau = next;
        proof {
            assert(self.table() =~~= pivoted(t, r, c));
        }
    }

    /// The value of variable `j` in the current tableau.
    fn variable_value(&self, j: usize) -> (r: Rational)
        requires
            j < self.vars(),
        ensures
            r@ == basic_value(self.table(), j as int),
    {
        proof {
            use_type_invariant(self);
        }
        let ghost t = self.table();
        let ghost c = j as int;
        let rows = self.num_constraints + 1;
        let rhs = self.num_vars + self.num_constraints;
        let eps = Simplex::tolerance_value();
        let one = Rational::one();
        let mut unit_row: Option<usize> = None;
        let mut basic = true;
        let ghost mut first: int = 0;
        let ghost mut second: int = 0;
        let mut i: usize = 0;
        while i < rows
            invariant
                i <= rows,
                self.well_formed(),
                rows == self.num_constraints + 1,
                rhs == self.num_vars + self.num_constraints,
                j < self.num_vars,
                c == j as int,
                t == self.table(),
                t.len() == rows,
                eps@ == tolerance(),
                one@ == 1real,
                unit_row is Some ==> 0 <= unit_row->Some_0 < i && is_one(t[unit_row->Some_0 as int][c]),
                basic ==> forall|p: int|
                    0 <= p < i && unit_row != Some(p as usize) ==> !is_one(t[p][c]) && is_nil(t[p][c]),
                !basic ==> 0 <= first < i && 0 <= second < i && ({
                    ||| first != second && is_one(t[first][c]) && is_one(t[second][c])
                    ||| !is_one(t[first][c]) && !is_nil(t[first][c])
                }),
            decreases rows - i,
        {
            assert(t[i as int][c] == self.tableau@[i as int]@[c]@);
            let value = &self.tableau[i][j];
            if value.sub(&one).abs().lt(&eps) {
                match unit_row {
                    Some(u) => {
                        if basic {
                            proof {
                                first = u as int;
                                second = i as int;
                            }
                        }
                        basic = false;
                    },
                    None => {
                        unit_row = Some(i);
                    },
                }
            } else if value.abs().gt(&eps) {
                if basic {
                    proof {
                        first = i as int;
                        second = i as int;
                    }
                }
                basic = false;
            }
            i += 1;
        }
        match unit_row {
            Some(u) => {
                if basic && u < self.num_constraints {
                    proof {
                        assert(is_basic_in(t, c, u as int));
                        lemma_basic_unique(t, c, u as int);
                        assert(t[u as int][rhs as int] == self.tableau@[u as int]@[rhs as int]@);
                    }
                    return self.tableau[u][rhs].clone();
                }
                proof {
                    assert forall|r: int| !is_basic_in(t, c, r) by {
                        if is_basic_in(t, c, r) {
                            if basic {
                                assert(r != u as int);
                                assert(!is_one(t[u as int][c]));
                            } else {
                                if first != r {
                                    assert(!is_one(t[first][c]) && is_nil(t[first][c]));
                                }
                                if second != r {
                                    assert(!is_one(t[second][c]) && is_nil(t[second][c]));
                                }
                            }
                        }
                    }
                }
                Rational::zero()
            },
            None => {
                proof {
                    assert forall|r: int| !is_basic_in(t, c, r) by {
                        if is_basic_in(t, c, r) {
                            if basic {
                                assert(!is_one(t[r][c]));
                            } else {
                                if first != r {
                                    assert(!is_one(t[first][c]) && is_nil(t[first][c]));
                                }
                            }
                        }
                    }
                }
                Rational::zero()
            },
        }
    }

    /// Reads the objective value and the values of the decision variables
    /// off the current tableau.
    pub fn extract_solution(&self) -> (r: (Rational, Vec<Rational>))
        ensures
            r.0@ == optimum(self.table()),
            reals(r.1@) == solution(self.table(), self.vars()),
    {
        proof {
            use_type_invariant(self);
        }
        let ghost t = self.table();
        let mut values: Vec<Rational> = Vec::new();
        let mut j: usize = 0;
        while j < self.num_vars
            invariant
                j <= self.num_vars,
                t == self.table(),
                values.len() == j,
                forall|q: int| 0 <= q < j ==> (#[trigger] values@[q])@ == basic_value(t, q),
            decreases self.num_vars - j,
        {
            values.push(self.variable_value(j));
            j += 1;
        }
        let m = self.num_constraints;
        let rhs = self.num_vars + self.num_constraints;
        assert(t[m as int][rhs as int] == self.tableau@[m as int]@[rhs as int]@);
        let best = self.tableau[m][rhs].clone();
        assert(reals(values@) =~= solution(t, self.vars()));
        (best, values)
    }

    /// Pivots until the tableau is optimal, no row can leave, or the
    /// iteration cap is spent, and leaves the tableau as it then is. On
    /// success the tableau is the optimal one, and the result is its
    /// objective value with the values of the decision variables.
    pub fn solve(&mut self) -> (r: Result<(Rational, Vec<Rational>), SimplexError>)
        ensures
            final(self).vars() == old(self).vars(),
            final(self).constraints() == old(self).constraints(),
            final(self).iteration_cap() == old(self).iteration_cap(),
            final(self).table() == reached(old(self).table(), old(self).iteration_cap()),
            r is Ok ==> {
                &&& pivoting(old(self).table(), old(self).iteration_cap()) == Ok::<
                    Seq<Seq<real>>,
                    SimplexError,
                >(final(self).table())
                &&& is_optimal(final(self).table())
                &&& (r->Ok_0).0@ == optimum(final(self).table())
                &&& reals((r->Ok_0).1@) == solution(final(self).table(), final(self).vars())
            },
            r is Err ==> pivoting(old(self).table(), old(self).iteration_cap()) == Err::<
                Seq<Seq<real>>,
                SimplexError,
            >(r->Err_0),
    {
        let ghost start = self.table();
        let cap = self.max_iterations;
        let mut k: usize = 0;
        while k < cap
            invariant
                k <= cap,
                cap == self.max_iterations,
                self.vars() == old(self).vars(),
                self.constraints() == old(self).constraints(),
                self.iteration_cap() == old(self).iteration_cap(),
                cap == old(self).iteration_cap(),
                start == old(self).table(),
                pivoting(start, cap as nat) == pivoting(self.table(), (cap - k) as nat),
                reached(start, cap as nat) == reached(self.table(), (cap - k) as nat),
            decreases cap - k,
        {
            let ghost t = self.table();
            let ghost fuel = (cap - k) as nat;
            let pivot_col = match self.find_pivot_column() {
                None => {
                    assert(pivoting(t, fuel) == Ok::<Seq<Seq<real>>, SimplexError>(t));
                    return Ok(self.extract_solution());
                },
                Some(c) => c,
            };
            proof {
                lemma_entering_unique(t, pivot_col as int);
                use_type_invariant(&*self);
            }
            let pivot_row = match self.find_pivot_row(pivot_col) {
                Err(e) => {
                    assert(pivoting(t, fuel) == Err::<Seq<Seq<real>>, SimplexError>(
                        SimplexError::Unbounded,
                    ));
                    return Err(e);
                },
                Ok(r) => r,
            };
            proof {
                lemma_leaving_unique(t, pivot_col as int, pivot_row as int);
                assert(qualifies(t, pivot_col as int, pivot_row as int));
                assert(pivoting(t, fuel) == pivoting(
                    pivoted(t, pivot_row as int, pivot_col as int),
                    (fuel - 1) as nat,
                ));
                assert(reached(t, fuel) == reached(
                    pivoted(t, pivot_row as int, pivot_col as int),
                    (fuel - 1) as nat,
                ));
            }
            self.pivot(pivot_row, pivot_col);
            k += 1;
        }
        Err(SimplexError::MaxIterations)
    }
}

impl Clone for Simplex {
    /// A second copy of this program in its present state.
    fn clone(&self) -> (r: Simplex)
        ensures
            r.table() == self.table(),
            r.vars() == self.vars(),
            r.constraints() == self.constraints(),
            r.iteration_cap() == self.iteration_cap(),
    {
        proof {
            use_type_invariant(self);
        }
        let tableau = duplicate_rows(self.tableau.as_slice());
        proof {
            assert(real_rows(tableau@).len() == real_rows(self.tableau@).len());
            assert(tableau@.len() == self.tableau@.len());
            assert forall|i: int| 0 <= i < tableau@.len() implies (#[trigger] tableau@[i])@.len()
                == self.num_vars + self.num_constraints + 1 by {
                assert(self.tableau@[i]@.len() == self.num_vars + self.num_constraints + 1);
                assert(real_rows(tableau@)[i] == real_rows(self.tableau@)[i]);
                assert(real_rows(tableau@)[i].len() == tableau@[i]@.len());
                assert(real_rows(self.tableau@)[i].len() == self.tableau@[i]@.len());
            }
        }
        Simplex {
            tableau,
            num_vars: self.num_vars,
            num_constraints: self.num_constraints,
            max_iterations: self.max_iterations,
        }
    }
}

} // verus!
