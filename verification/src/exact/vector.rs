//! Vectors and matrices of rationals, viewed as sequences of reals.

use super::rational::Rational;
use vstd::prelude::*;

verus! {

/// The reals that a sequence of rationals denotes.
pub open spec fn reals(v: Seq<Rational>) -> Seq<real> {
    Seq::new(v.len(), |i: int| v[i]@)
}

/// The rows of reals that a sequence of rational rows denotes.
pub open spec fn real_rows(m: Seq<Vec<Rational>>) -> Seq<Seq<real>> {
    Seq::new(m.len(), |i: int| reals(m[i]@))
}

/// The sum of the first `n` entries of `v`.
pub open spec fn partial_sum(v: Seq<real>, n: nat) -> real
    decreases n,
{
    if n == 0 {
        0real
    } else {
        partial_sum(v, (n - 1) as nat) + v[n - 1]
    }
}

/// The sum of all entries of `v`.
pub open spec fn total(v: Seq<real>) -> real {
    partial_sum(v, v.len())
}

/// The weighted sum of the first `n` entries of `x` with the weights
/// `row`: the left side of a linear equation or inequality in `n` unknowns.
pub open spec fn row_value(row: Seq<real>, x: Seq<real>, n: nat) -> real {
    partial_sum(Seq::new(n, |j: int| row[j] * x[j]), n)
}

/// A second copy of a row.
pub fn duplicate_row(row: &[Rational]) -> (r: Vec<Rational>)
    ensures
        reals(r@) == reals(row@),
{
    let mut out: Vec<Rational> = Vec::new();
    let mut i: usize = 0;
    while i < row.len()
        invariant
            i <= row.len(),
            out.len() == i,
            forall|k: int| 0 <= k < i ==> out[k]@ == row[k]@,
        decreases row.len() - i,
    {
        out.push(row[i].clone());
        i += 1;
    }
    assert(reals(out@) =~= reals(row@));
    out
}

/// A second copy of a matrix.
pub fn duplicate_rows(rows: &[Vec<Rational>]) -> (r: Vec<Vec<Rational>>)
    ensures
        real_rows(r@) == real_rows(rows@),
{
    let mut out: Vec<Vec<Rational>> = Vec::new();
    let mut i: usize = 0;
    while i < rows.len()
        invariant
            i <= rows.len(),
            out.len() == i,
            forall|k: int| 0 <= k < i ==> reals(out[k]@) == reals(rows[k]@),
        decreases rows.len() - i,
    {
        out.push(duplicate_row(rows[i].as_slice()));
        i += 1;
    }
    assert(real_rows(out@) =~= real_rows(rows@));
    out
}

/// The sum of the entries of a vector.
pub fn sum(v: &[Rational]) -> (r: Rational)
    ensures
        r@ == total(reals(v@)),
{
    let mut acc = Rational::zero();
    let mut i: usize = 0;
    while i < v.len()
        invariant
            i <= v.len(),
            acc@ == partial_sum(reals(v@), i as nat),
        decreases v.len() - i,
    {
        acc = acc.add(&v[i]);
        i += 1;
    }
    acc
}

/// The vector `v` with every entry divided by `d`.
pub open spec fn scaled_down(v: Seq<real>, d: real) -> Seq<real> {
    Seq::new(v.len(), |i: int| v[i] / d)
}

/// The unit vector of length `n` with its one at `i`.
pub open spec fn unit_vector(n: nat, i: int) -> Seq<real> {
    Seq::new(n, |k: int| if k == i { 1real } else { 0real })
}

/// Whether `p` is a probability distribution: no entry is negative and the
/// entries sum to one.
pub open spec fn is_distribution(p: Seq<real>) -> bool {
    &&& forall|i: int| 0 <= i < p.len() ==> p[i] >= 0real
    &&& total(p) == 1real
}

/// Dividing every entry by `d` divides the sum by `d`.
pub proof fn lemma_partial_sum_scaled(v: Seq<real>, d: real, n: nat)
    requires
        d != 0real,
        n <= v.len(),
    ensures
        partial_sum(scaled_down(v, d), n) == partial_sum(v, n) / d,
    decreases n,
{
    if n == 0 {
        assert(0real / d == 0real) by (nonlinear_arith)
            requires
                d != 0real,
        ;
    } else {
        lemma_partial_sum_scaled(v, d, (n - 1) as nat);
        let a = partial_sum(v, (n - 1) as nat);
        let b = v[n - 1];
        assert(scaled_down(v, d)[n - 1] == b / d);
        assert(a / d + b / d == (a + b) / d) by (nonlinear_arith)
            requires
                d != 0real,
        ;
    }
}

/// A vector divided by its own sum sums to one.
pub proof fn lemma_total_scaled(v: Seq<real>)
    requires
        total(v) != 0real,
    ensures
        total(scaled_down(v, total(v))) == 1real,
{
    let d = total(v);
    lemma_partial_sum_scaled(v, d, v.len());
    assert(d / d == 1real) by (nonlinear_arith)
        requires
            d != 0real,
    ;
}

/// The sum of entries that are not negative is not negative.
pub proof fn lemma_partial_sum_nonnegative(v: Seq<real>, n: nat)
    requires
        n <= v.len(),
        forall|i: int| 0 <= i < v.len() ==> v[i] >= 0real,
    ensures
        partial_sum(v, n) >= 0real,
    decreases n,
{
    if n > 0 {
        lemma_partial_sum_nonnegative(v, (n - 1) as nat);
    }
}

/// A vector of entries that are not negative, divided by its positive sum,
/// is a distribution.
pub proof fn lemma_scaled_is_distribution(v: Seq<real>)
    requires
        forall|i: int| 0 <= i < v.len() ==> v[i] >= 0real,
        total(v) > 0real,
    ensures
        is_distribution(scaled_down(v, total(v))),
{
    let d = total(v);
    let w = scaled_down(v, d);
    lemma_total_scaled(v);
    assert forall|i: int| 0 <= i < w.len() implies w[i] >= 0real by {
        let x = v[i];
        assert(x / d >= 0real) by (nonlinear_arith)
            requires
                x >= 0real,
                d > 0real,
        ;
    }
}

/// The first `k` entries of a unit vector sum to one once they include the
/// one, and to zero before.
pub proof fn lemma_partial_sum_unit(n: nat, i: int, k: nat)
    requires
        0 <= i < n,
        k <= n,
    ensures
        partial_sum(unit_vector(n, i), k) == if k > i { 1real } else { 0real },
    decreases k,
{
    if k > 0 {
        lemma_partial_sum_unit(n, i, (k - 1) as nat);
        assert(unit_vector(n, i)[k - 1] == if k - 1 == i { 1real } else { 0real });
    }
}

/// A unit vector is a distribution.
pub proof fn lemma_unit_is_distribution(n: nat, i: int)
    requires
        0 <= i < n,
    ensures
        is_distribution(unit_vector(n, i)),
{
    lemma_partial_sum_unit(n, i, n);
}

/// The unit vector of length `n` with its one at `i`.
pub fn unit(n: usize, i: usize) -> (r: Vec<Rational>)
    ensures
        reals(r@) == unit_vector(n as nat, i as int),
        r.len() == n,
{
    let mut out: Vec<Rational> = Vec::new();
    let mut k: usize = 0;
    while k < n
        invariant
            k <= n,
            out.len() == k,
            forall|j: int| 0 <= j < k ==> (#[trigger] out@[j])@ == if j == i { 1real } else { 0real },
        decreases n - k,
    {
        if k == i {
            out.push(Rational::one());
        } else {
            out.push(Rational::zero());
        }
        k += 1;
    }
    assert(reals(out@) =~= unit_vector(n as nat, i as int));
    out
}

/// The sum of the first `n` entries depends on those entries alone.
pub proof fn lemma_partial_sum_agree(u: Seq<real>, v: Seq<real>, n: nat)
    requires
        forall|i: int| 0 <= i < n ==> u[i] == v[i],
    ensures
        partial_sum(u, n) == partial_sum(v, n),
    decreases n,
{
    if n > 0 {
        lemma_partial_sum_agree(u, v, (n - 1) as nat);
    }
}

/// The sum is linear: where `w` is `s * u + t * v` entry by entry, the sum of
/// `w` is `s` times that of `u` plus `t` times that of `v`.
pub proof fn lemma_partial_sum_linear(
    u: Seq<real>,
    v: Seq<real>,
    w: Seq<real>,
    s: real,
    t: real,
    n: nat,
)
    requires
        forall|i: int| 0 <= i < n ==> w[i] == s * u[i] + t * v[i],
    ensures
        partial_sum(w, n) == s * partial_sum(u, n) + t * partial_sum(v, n),
    decreases n,
{
    if n == 0 {
        assert(s * 0real + t * 0real == 0real) by (nonlinear_arith);
    } else {
        lemma_partial_sum_linear(u, v, w, s, t, (n - 1) as nat);
        let (a, b) = (partial_sum(u, (n - 1) as nat), partial_sum(v, (n - 1) as nat));
        let (x, y) = (u[n - 1], v[n - 1]);
        assert(s * a + t * b + (s * x + t * y) == s * (a + x) + t * (b + y)) by (nonlinear_arith);
    }
}

/// Where `w` is `s * u` entry by entry, the sum of `w` is `s` times that of
/// `u`.
pub proof fn lemma_partial_sum_scale(u: Seq<real>, w: Seq<real>, s: real, n: nat)
    requires
        forall|i: int| 0 <= i < n ==> w[i] == s * u[i],
    ensures
        partial_sum(w, n) == s * partial_sum(u, n),
{
    assert forall|i: int| 0 <= i < n implies w[i] == s * u[i] + 0real * u[i] by {
        let x = u[i];
        assert(s * x + 0real * x == s * x) by (nonlinear_arith);
    }
    lemma_partial_sum_linear(u, u, w, s, 0real, n);
    let a = partial_sum(u, n);
    assert(s * a + 0real * a == s * a) by (nonlinear_arith);
}

/// A sum weighted by a unit vector picks one entry.
pub proof fn lemma_partial_sum_pick(w: Seq<real>, x: Seq<real>, i: int, n: nat)
    requires
        0 <= i,
        forall|k: int| 0 <= k < n ==> w[k] == if k == i { x[k] } else { 0real },
    ensures
        partial_sum(w, n) == if n > i { x[i] } else { 0real },
    decreases n,
{
    if n > 0 {
        lemma_partial_sum_pick(w, x, i, (n - 1) as nat);
    }
}

/// A sum with weights that are not negative is at least the weights' sum
/// times a lower bound of the entries.
pub proof fn lemma_weighted_sum_at_least(p: Seq<real>, x: Seq<real>, w: Seq<real>, lo: real, n: nat)
    requires
        forall|i: int| 0 <= i < n ==> p[i] >= 0real,
        forall|i: int| 0 <= i < n ==> lo <= x[i],
        forall|i: int| 0 <= i < n ==> w[i] == p[i] * x[i],
    ensures
        lo * partial_sum(p, n) <= partial_sum(w, n),
    decreases n,
{
    if n == 0 {
        assert(lo * 0real == 0real) by (nonlinear_arith);
    } else {
        lemma_weighted_sum_at_least(p, x, w, lo, (n - 1) as nat);
        let a = partial_sum(p, (n - 1) as nat);
        let (c, y) = (p[n - 1], x[n - 1]);
        assert(w[n - 1] == c * y);
        assert(lo * (a + c) == lo * a + lo * c && lo * c <= c * y) by (nonlinear_arith)
            requires
                c >= 0real,
                lo <= y,
        ;
    }
}

/// A sum with weights that are not negative is at most the weights' sum
/// times an upper bound of the entries.
pub proof fn lemma_weighted_sum_at_most(p: Seq<real>, x: Seq<real>, w: Seq<real>, hi: real, n: nat)
    requires
        forall|i: int| 0 <= i < n ==> p[i] >= 0real,
        forall|i: int| 0 <= i < n ==> x[i] <= hi,
        forall|i: int| 0 <= i < n ==> w[i] == p[i] * x[i],
    ensures
        partial_sum(w, n) <= hi * partial_sum(p, n),
    decreases n,
{
    if n == 0 {
        assert(hi * 0real == 0real) by (nonlinear_arith);
    } else {
        lemma_weighted_sum_at_most(p, x, w, hi, (n - 1) as nat);
        let a = partial_sum(p, (n - 1) as nat);
        let (c, y) = (p[n - 1], x[n - 1]);
        assert(w[n - 1] == c * y);
        assert(hi * (a + c) == hi * a + hi * c && c * y <= hi * c) by (nonlinear_arith)
            requires
                c >= 0real,
                y <= hi,
        ;
    }
}

/// A double sum over a rectangle may be taken row by row or column by
/// column.
pub proof fn lemma_sum_exchange(f: spec_fn(int, int) -> real, n: nat, m: nat)
    ensures
        total(Seq::new(n, |i: int| total(Seq::new(m, |j: int| f(i, j))))) == total(
            Seq::new(m, |j: int| total(Seq::new(n, |i: int| f(i, j)))),
        ),
    decreases n,
{
    let by_rows = Seq::new(n, |i: int| total(Seq::new(m, |j: int| f(i, j))));
    let by_cols = Seq::new(m, |j: int| total(Seq::new(n, |i: int| f(i, j))));
    if n == 0 {
        let nil = Seq::new(m, |j: int| 0real);
        assert forall|j: int| 0 <= j < m implies by_cols[j] == 0real * nil[j] by {
            assert(Seq::new(0nat, |i: int| f(i, j)).len() == 0);
            assert(0real * 0real == 0real) by (nonlinear_arith);
        }
        lemma_partial_sum_scale(nil, by_cols, 0real, m);
        let a = partial_sum(nil, m);
        assert(0real * a == 0real) by (nonlinear_arith);
    } else {
        let k = (n - 1) as nat;
        lemma_sum_exchange(f, k, m);
        let rows_before = Seq::new(k, |i: int| total(Seq::new(m, |j: int| f(i, j))));
        let cols_before = Seq::new(m, |j: int| total(Seq::new(k, |i: int| f(i, j))));
        let last = Seq::new(m, |j: int| f(k as int, j));
        lemma_partial_sum_agree(by_rows, rows_before, k);
        assert(by_rows[k as int] == total(last));
        assert forall|j: int| 0 <= j < m implies by_cols[j] == 1real * cols_before[j] + 1real
            * last[j] by {
            let full = Seq::new(n, |i: int| f(i, j));
            let part = Seq::new(k, |i: int| f(i, j));
            lemma_partial_sum_agree(full, part, k);
            assert(full[k as int] == f(k as int, j));
            let (x, y) = (cols_before[j], last[j]);
            assert(1real * x + 1real * y == x + y) by (nonlinear_arith);
        }
        lemma_partial_sum_linear(cols_before, last, by_cols, 1real, 1real, m);
        let (x, y) = (partial_sum(cols_before, m), partial_sum(last, m));
        assert(1real * x + 1real * y == x + y) by (nonlinear_arith);
    }
}

} // verus!
