//! A labelled matrix of success probabilities and its payoff form.

use crate::exact::decimal::{decimal_text, digit_str, fixed, fixed_text};
use crate::exact::rational::Rational;
use crate::exact::vector::real_rows;
use crate::visualization::layout::{align_right, chained, right_aligned};
use vstd::prelude::*;
use vstd::string::StringExecFns;

verus! {

/// Why a payoff matrix could not be built.
#[derive(Debug)]
pub enum PayoffError {
    /// Rows differ in length, or the labels do not fit the matrix.
    DimensionMismatch,
    /// An entry is no probability; the entry is given.
    InvalidProbability(Rational),
}

/// The texts of a sequence of strings.
pub open spec fn texts(v: Seq<String>) -> Seq<Seq<char>> {
    Seq::new(v.len(), |i: int| v[i]@)
}

/// The labels `prefix + "0"`, `prefix + "1"`, ... up to `n` of them.
pub open spec fn numbered(prefix: Seq<char>, n: nat) -> Seq<Seq<char>> {
    Seq::new(n, |i: int| prefix + decimal_text(i as nat))
}

/// Whether `x` is a probability.
pub open spec fn is_probability(x: real) -> bool {
    0real <= x <= 1real
}

/// Whether entry `(p, q)` comes before entry `(i, j)` in row-major order.
pub open spec fn comes_before(p: int, q: int, i: int, j: int) -> bool {
    p < i || (p == i && q < j)
}

/// Entry `(i, j)` is the first in row-major order that is no probability.
pub open spec fn is_first_improbable(m: Seq<Seq<real>>, i: int, j: int) -> bool {
    &&& 0 <= i < m.len()
    &&& 0 <= j < m[i].len()
    &&& !is_probability(m[i][j])
    &&& forall|p: int, q: int|
        0 <= p < m.len() && 0 <= q < m[p].len() && comes_before(p, q, i, j) ==> is_probability(
            #[trigger] m[p][q],
        )
}

/// Every entry is a probability.
pub open spec fn all_probabilities(m: Seq<Seq<real>>) -> bool {
    forall|p: int, q: int| 0 <= p < m.len() && 0 <= q < m[p].len() ==> is_probability(#[trigger] m[p][q])
}

/// Every row is as long as the first.
pub open spec fn is_rectangular(m: Seq<Seq<real>>) -> bool {
    forall|i: int| 0 <= i < m.len() ==> (#[trigger] m[i]).len() == m[0].len()
}

/// The number of columns: the length of the first row, zero without one.
pub open spec fn width(m: Seq<Seq<real>>) -> nat {
    if m.len() == 0 {
        0
    } else {
        m[0].len()
    }
}

/// Whether matrix and labels fit: an empty matrix fits any labels; another
/// is rectangular, with a label for every row and every column.
pub open spec fn labels_fit(m: Seq<Seq<real>>, rows: nat, cols: nat) -> bool {
    m.len() == 0 || (is_rectangular(m) && m.len() == rows && m[0].len() == cols)
}

/// The payoff form of a matrix of probabilities: `2p - 1`, which is `+1` for
/// a certain goal and `-1` for a certain save.
pub open spec fn payoff_form(m: Seq<Seq<real>>) -> Seq<Seq<real>> {
    Seq::new(m.len(), |i: int| Seq::new(m[i].len(), |j: int| 2real * m[i][j] - 1real))
}

/// The width of a column of the table that `display` gives.
pub open spec fn column_width() -> nat {
    12
}

/// The labels as cells of the table: each at the right of its column.
pub open spec fn label_cells(names: Seq<Seq<char>>) -> Seq<Seq<char>> {
    Seq::new(names.len(), |j: int| right_aligned(names[j], column_width(), " "@))
}

/// The entries of a row as cells of the table: each with three decimals at
/// the right of its column.
pub open spec fn value_cells(row: Seq<real>) -> Seq<Seq<char>> {
    Seq::new(row.len(), |j: int| right_aligned(fixed_text(row[j], 3), column_width(), " "@))
}

/// The lines of the table: for each row its label, its entries and a line
/// break.
pub open spec fn table_lines(values: Seq<Seq<real>>, row_names: Seq<Seq<char>>) -> Seq<Seq<char>> {
    Seq::new(
        values.len(),
        |i: int|
            right_aligned(row_names[i], column_width(), " "@) + chained(
                value_cells(values[i]),
                values[i].len(),
            ) + "\n"@,
    )
}

/// The matrix as a table: a line of column labels behind an empty corner,
/// then a line for every row.
pub open spec fn table_text(
    values: Seq<Seq<real>>,
    row_names: Seq<Seq<char>>,
    col_names: Seq<Seq<char>>,
) -> Seq<char> {
    right_aligned(Seq::empty(), column_width(), " "@) + chained(
        label_cells(col_names),
        col_names.len(),
    ) + "\n"@ + chained(table_lines(values, row_names), values.len())
}

/// The text `prefix` followed by `n` in decimal.
pub fn numbered_label(prefix: &str, n: usize) -> (r: String)
    ensures
        r@ == prefix@ + decimal_text(n as nat),
    decreases n,
{
    if n < 10 {
        String::from_str(prefix).concat(digit_str(n))
    } else {
        let head = numbered_label(prefix, n / 10);
        let r = head.concat(digit_str(n % 10));
        assert(r@ =~= prefix@ + decimal_text(n as nat));
        r
    }
}

/// A matrix of success probabilities with a label for every row and column.
/// Rows are the kicker's strategies, columns the goalkeeper's.
#[derive(Debug)]
pub struct PayoffMatrix {
    matrix: Vec<Vec<Rational>>,
    row_labels: Vec<String>,
    col_labels: Vec<String>,
}

impl PayoffMatrix {
    /// Matrix and labels fit.
    #[verifier::type_invariant]
    spec fn well_formed(&self) -> bool {
        labels_fit(real_rows(self.matrix@), self.row_labels@.len(), self.col_labels@.len())
    }

    /// The entries as rows of reals.
    pub closed spec fn values(&self) -> Seq<Seq<real>> {
        real_rows(self.matrix@)
    }

    /// The texts of the row labels.
    pub closed spec fn row_names(&self) -> Seq<Seq<char>> {
        texts(self.row_labels@)
    }

    /// The texts of the column labels.
    pub closed spec fn col_names(&self) -> Seq<Seq<char>> {
        texts(self.col_labels@)
    }

    /// A matrix with the given entries and labels. Fails exactly when the
    /// matrix is not empty and its rows differ in length or the labels do
    /// not fit it.
    pub fn new(matrix: Vec<Vec<Rational>>, row_labels: Vec<String>, col_labels: Vec<String>) -> (r:
        Result<PayoffMatrix, PayoffError>)
        ensures
            r is Ok <==> labels_fit(real_rows(matrix@), row_labels@.len(), col_labels@.len()),
            r is Ok ==> {
                &&& (r->Ok_0).values() == real_rows(matrix@)
                &&& (r->Ok_0).row_names() == texts(row_labels@)
                &&& (r->Ok_0).col_names() == texts(col_labels@)
            },
            r is Err ==> r->Err_0 is DimensionMismatch,
    {
        let ghost m = real_rows(matrix@);
        if matrix.len() == 0 {
            return Ok(PayoffMatrix { matrix, row_labels, col_labels });
        }
        let num_cols = matrix[0].len();
        assert(m[0].len() == num_cols);
        let mut k: usize = 0;
        while k < matrix.len()
            invariant
                k <= matrix.len(),
                matrix.len() >= 1,
                m == real_rows(matrix@),
                num_cols == m[0].len(),
                forall|i: int| 0 <= i < k ==> (#[trigger] m[i]).len() == num_cols,
            decreases matrix.len() - k,
        {
            assert(m[k as int].len() == matrix@[k as int]@.len());
            if matrix[k].len() != num_cols {
                return Err(PayoffError::DimensionMismatch);
            }
            k += 1;
        }
        if matrix.len() != row_labels.len() || num_cols != col_labels.len() {
            return Err(PayoffError::DimensionMismatch);
        }
        Ok(PayoffMatrix { matrix, row_labels, col_labels })
    }

    /// `n` labels: `prefix` followed by `0`, `1`, and so on.
    fn numbered_labels(prefix: &str, n: usize) -> (r: Vec<String>)
        ensures
            texts(r@) == numbered(prefix@, n as nat),
            r.len() == n,
    {
        let mut out: Vec<String> = Vec::new();
        let mut i: usize = 0;
        while i < n
            invariant
                i <= n,
                out.len() == i,
                forall|k: int|
                    0 <= k < i ==> (#[trigger] out@[k])@ == prefix@ + decimal_text(k as nat),
            decreases n - i,
        {
            out.push(numbered_label(prefix, i));
            i += 1;
        }
        assert(texts(out@) =~= numbered(prefix@, n as nat));
        out
    }

    /// A matrix of the given success probabilities, labelled `Row 0`,
    /// `Row 1`, ... and `Col 0`, `Col 1`, ... Fails with the first entry, in
    /// row-major order, that is no probability; else as `new` does.
    pub fn from_success_rates(success_rates: Vec<Vec<Rational>>) -> (r: Result<
        PayoffMatrix,
        PayoffError,
    >)
        ensures
            r is Ok <==> all_probabilities(real_rows(success_rates@)) && (success_rates.len() == 0
                || is_rectangular(real_rows(success_rates@))),
            r is Ok ==> {
                &&& (r->Ok_0).values() == real_rows(success_rates@)
                &&& (r->Ok_0).row_names() == numbered("Row "@, success_rates.len() as nat)
                &&& (r->Ok_0).col_names() == numbered("Col "@, width(real_rows(success_rates@)))
            },
            r is Err ==> match r->Err_0 {
                PayoffError::InvalidProbability(v) => exists|i: int, j: int|
                    is_first_improbable(real_rows(success_rates@), i, j) && v@ == real_rows(
                        success_rates@,
                    )[i][j],
                PayoffError::DimensionMismatch => all_probabilities(real_rows(success_rates@)),
            },
    {
        let ghost m = real_rows(success_rates@);
        let one = Rational::one();
        let mut i: usize = 0;
        while i < success_rates.len()
            invariant
                i <= success_rates.len(),
                m == real_rows(success_rates@),
                one@ == 1real,
                forall|p: int, q: int|
                    0 <= p < i && 0 <= q < m[p].len() ==> is_probability(#[trigger] m[p][q]),
            decreases success_rates.len() - i,
        {
            let mut j: usize = 0;
            while j < success_rates[i].len()
                invariant
                    j <= success_rates@[i as int]@.len(),
                    i < success_rates.len(),
                    m == real_rows(success_rates@),
                    one@ == 1real,
                    forall|p: int, q: int|
                        0 <= p < i && 0 <= q < m[p].len() ==> is_probability(#[trigger] m[p][q]),
                    forall|q: int| 0 <= q < j ==> is_probability(#[trigger] m[i as int][q]),
                decreases success_rates@[i as int]@.len() - j,
            {
                assert(m[i as int][j as int] == success_rates@[i as int]@[j as int]@);
                assert(m[i as int].len() == success_rates@[i as int]@.len());
                let prob = &success_rates[i][j];
                if prob.is_negative() || prob.gt(&one) {
                    proof {
                        assert(is_first_improbable(m, i as int, j as int));
                    }
                    return Err(PayoffError::InvalidProbability(prob.clone()));
                }
                j += 1;
            }
            assert(m[i as int].len() == success_rates@[i as int]@.len());
            i += 1;
        }
        let num_rows = success_rates.len();
        let num_cols = if num_rows > 0 {
            success_rates[0].len()
        } else {
            0
        };
        proof {
            if num_rows > 0 {
                assert(m[0].len() == success_rates@[0]@.len());
            }
        }
        let row_labels = PayoffMatrix::numbered_labels("Row ", num_rows);
        let col_labels = PayoffMatrix::numbered_labels("Col ", num_cols);
        PayoffMatrix::new(success_rates, row_labels, col_labels)
    }

    /// The entries.
    pub fn matrix(&self) -> (r: &Vec<Vec<Rational>>)
        ensures
            real_rows(r@) == self.values(),
    {
        &self.matrix
    }

    /// The entry in row `row`, column `col`; none outside the matrix.
    pub fn get(&self, row: usize, col: usize) -> (r: Option<Rational>)
        ensures
            r is Some <==> row < self.values().len() && col < self.values()[row as int].len(),
            r is Some ==> (r->Some_0)@ == self.values()[row as int][col as int],
    {
        if row < self.matrix.len() {
            assert(self.values()[row as int].len() == self.matrix@[row as int]@.len());
            if col < self.matrix[row].len() {
                assert(self.values()[row as int][col as int] == self.matrix@[row as int]@[col as int]@);
                return Some(self.matrix[row][col].clone());
            }
        }
        None
    }

    /// The number of rows: the kicker's strategies.
    pub fn num_rows(&self) -> (r: usize)
        ensures
            r == self.values().len(),
    {
        self.matrix.len()
    }

    /// The number of columns: the goalkeeper's strategies.
    pub fn num_cols(&self) -> (r: usize)
        ensures
            r == width(self.values()),
    {
        if self.matrix.len() == 0 {
            0
        } else {
            assert(self.values()[0].len() == self.matrix@[0]@.len());
            self.matrix[0].len()
        }
    }

    /// The row labels.
    pub fn row_labels(&self) -> (r: &[String])
        ensures
            texts(r@) == self.row_names(),
    {
        self.row_labels.as_slice()
    }

    /// The column labels.
    pub fn col_labels(&self) -> (r: &[String])
        ensures
            texts(r@) == self.col_names(),
    {
        self.col_labels.as_slice()
    }

    /// The matrix as a table with its labels, the entries with three
    /// decimals.
    pub fn display(&self) -> (r: String)
        ensures
            r@ == table_text(self.values(), self.row_names(), self.col_names()),
    {
        proof {
            use_type_invariant(self);
        }
        let ghost m = self.values();
        let ghost rows = self.row_names();
        let ghost cols = self.col_names();
        let ghost heads = label_cells(cols);
        let ghost lines = table_lines(m, rows);
        let mut header = String::new();
        let mut j: usize = 0;
        assert(header@ =~= chained(heads, 0));
        while j < self.col_labels.len()
            invariant
                j <= self.col_labels.len(),
                cols == texts(self.col_labels@),
                heads == label_cells(cols),
                header@ == chained(heads, j as nat),
            decreases self.col_labels.len() - j,
        {
            assert(cols[j as int] == self.col_labels@[j as int]@);
            header.append(align_right(self.col_labels[j].as_str(), 12, " ").as_str());
            j += 1;
        }
        let mut body = String::new();
        let mut i: usize = 0;
        assert(body@ =~= chained(lines, 0));
        while i < self.matrix.len()
            invariant
                i <= self.matrix.len(),
                self.well_formed(),
                m == real_rows(self.matrix@),
                rows == texts(self.row_labels@),
                lines == table_lines(m, rows),
                body@ == chained(lines, i as nat),
            decreases self.matrix.len() - i,
        {
            let ghost cells = value_cells(m[i as int]);
            assert(m[i as int].len() == self.matrix@[i as int]@.len());
            let mut entries = String::new();
            let mut k: usize = 0;
            assert(entries@ =~= chained(cells, 0));
            while k < self.matrix[i].len()
                invariant
                    k <= self.matrix@[i as int]@.len(),
                    i < self.matrix.len(),
                    m == real_rows(self.matrix@),
                    cells == value_cells(m[i as int]),
                    entries@ == chained(cells, k as nat),
                decreases self.matrix@[i as int]@.len() - k,
            {
                assert(m[i as int][k as int] == self.matrix@[i as int]@[k as int]@);
                let number = fixed(&self.matrix[i][k], 3);
                entries.append(align_right(number.as_str(), 12, " ").as_str());
                k += 1;
            }
            assert(rows[i as int] == self.row_labels@[i as int]@);
            let mut line = align_right(self.row_labels[i].as_str(), 12, " ");
            line.append(entries.as_str());
            line.append("\n");
            assert(line@ == lines[i as int]);
            body.append(line.as_str());
            i += 1;
        }
        let mut output = align_right("", 12, " ");
        output.append(header.as_str());
        output.append("\n");
        output.append(body.as_str());
        proof {
            let nothing = ""@;
            reveal_strlit("");
            assert(nothing =~= Seq::<char>::empty());
        }
        output
    }

    /// The payoffs to the kicker: a goal counts `+1`, a save `-1`, so a
    /// success probability `p` becomes `2p - 1`.
    pub fn to_expected_payoff(&self) -> (r: Vec<Vec<Rational>>)
        ensures
            real_rows(r@) == payoff_form(self.values()),
    {
        let ghost m = self.values();
        let two = Rational::from_int(2);
        let one = Rational::one();
        let mut out: Vec<Vec<Rational>> = Vec::new();
        let mut i: usize = 0;
        while i < self.matrix.len()
            invariant
                i <= self.matrix.len(),
                m == self.values(),
                two@ == 2real,
                one@ == 1real,
                out.len() == i,
                forall|p: int| 0 <= p < i ==> (#[trigger] out@[p])@.len() == m[p].len(),
                forall|p: int, q: int|
                    0 <= p < i && 0 <= q < m[p].len() ==> (#[trigger] out@[p]@[q])@ == 2real
                        * m[p][q] - 1real,
            decreases self.matrix.len() - i,
        {
            assert(m[i as int].len() == self.matrix@[i as int]@.len());
            let mut row: Vec<Rational> = Vec::new();
            let mut j: usize = 0;
            while j < self.matrix[i].len()
                invariant
                    j <= self.matrix@[i as int]@.len(),
                    i < self.matrix.len(),
                    m == self.values(),
                    two@ == 2real,
                    one@ == 1real,
                    row.len() == j,
                    forall|q: int|
                        0 <= q < j ==> (#[trigger] row@[q])@ == 2real * m[i as int][q] - 1real,
                decreases self.matrix@[i as int]@.len() - j,
            {
                assert(m[i as int][j as int] == self.matrix@[i as int]@[j as int]@);
                row.push(two.mul(&self.matrix[i][j]).sub(&one));
                j += 1;
            }
            out.push(row);
            i += 1;
        }
        assert(real_rows(out@) =~~= payoff_form(m));
        out
    }

    /// A second copy of a list of labels.
    fn duplicate_labels(labels: &Vec<String>) -> (r: Vec<String>)
        ensures
            texts(r@) == texts(labels@),
            r.len() == labels.len(),
    {
        let mut out: Vec<String> = Vec::new();
        let mut i: usize = 0;
        while i < labels.len()
            invariant
                i <= labels.len(),
                out.len() == i,
                forall|k: int| 0 <= k < i ==> (#[trigger] out@[k])@ == labels@[k]@,
            decreases labels.len() - i,
        {
            out.push(labels[i].clone());
            i += 1;
        }
        assert(texts(out@) =~= texts(labels@));
        out
    }
}

impl Clone for PayoffMatrix {
    /// A second copy of this matrix.
    fn clone(&self) -> (r: PayoffMatrix)
        ensures
            r.values() == self.values(),
            r.row_names() == self.row_names(),
            r.col_names() == self.col_names(),
    {
        proof {
            use_type_invariant(self);
        }
        let matrix = crate::exact::vector::duplicate_rows(self.matrix.as_slice());
        let row_labels = PayoffMatrix::duplicate_labels(&self.row_labels);
        let col_labels = PayoffMatrix::duplicate_labels(&self.col_labels);
        PayoffMatrix { matrix, row_labels, col_labels }
    }
}

impl Default for PayoffMatrix {
    /// The empty matrix without labels.
    fn default() -> (r: PayoffMatrix)
        ensures
            r.values() == Seq::<Seq<real>>::empty(),
            r.row_names() == Seq::<Seq<char>>::empty(),
            r.col_names() == Seq::<Seq<char>>::empty(),
    {
        let r = PayoffMatrix { matrix: Vec::new(), row_labels: Vec::new(), col_labels: Vec::new() };
        assert(r.values() =~= Seq::<Seq<real>>::empty());
        assert(r.row_names() =~= Seq::<Seq<char>>::empty());
        assert(r.col_names() =~= Seq::<Seq<char>>::empty());
        r
    }
}

} // verus!
