//! Heatmaps: the range of a matrix and the shade of each entry.

use super::chart::label_texts;
use super::layout::{align_right, centre, centred, chained, right_aligned};
use crate::exact::decimal::{fixed, fixed_text};
use crate::exact::rational::{real_abs, rounded, saturated, Rational};
use crate::exact::vector::real_rows;
use crate::solver::game::is_least_entry;
use vstd::prelude::*;
use vstd::string::StringExecFns;

verus! {

/// The range below which the entries of a heatmap count as equal: `1e-10`.
pub open spec fn flat_range() -> real {
    1real / 10000000000real
}

/// The shade, from 0 to 9, of `value` in a heatmap of entries from `least`
/// to `greatest`: a middle shade where the entries hardly differ.
pub open spec fn heat_level(value: real, least: real, greatest: real) -> usize {
    if real_abs(greatest - least) < flat_range() {
        5
    } else {
        let level = saturated(rounded((value - least) / (greatest - least) * 9real));
        if level <= 9 {
            level
        } else {
            9
        }
    }
}

/// `v` is an entry of `m` and no entry is larger.
pub open spec fn is_greatest_entry(m: Seq<Seq<real>>, v: real) -> bool {
    &&& exists|i: int, j: int| 0 <= i < m.len() && 0 <= j < m[i].len() && m[i][j] == v
    &&& forall|i: int, j: int| 0 <= i < m.len() && 0 <= j < m[i].len() ==> m[i][j] <= v
}

/// Whether `m` has an entry.
pub open spec fn has_entry(m: Seq<Seq<real>>) -> bool {
    exists|i: int| 0 <= i < m.len() && (#[trigger] m[i]).len() > 0
}

/// The three characters of a shade: the higher the level, the darker.
pub open spec fn shade_text(level: usize) -> Seq<char> {
    if level == 0 {
        "░░░"@
    } else if level == 1 {
        "░░▒"@
    } else if level == 2 {
        "░▒▒"@
    } else if level == 3 {
        "▒▒▒"@
    } else if level == 4 {
        "▒▒▓"@
    } else if level == 5 {
        "▒▓▓"@
    } else if level == 6 {
        "▓▓▓"@
    } else if level == 7 {
        "▓▓█"@
    } else if level == 8 {
        "▓██"@
    } else {
        "███"@
    }
}

/// The range of a matrix: its least and greatest entry, where it has one.
pub open spec fn range_of(m: Seq<Seq<real>>) -> Option<(real, real)> {
    if has_entry(m) {
        Some(
            (
                choose|v: real| is_least_entry(m, v),
                choose|v: real| is_greatest_entry(m, v),
            ),
        )
    } else {
        None
    }
}

/// The legend of a heatmap: the least entry, five shades from light to
/// dark, and the greatest entry. Without entries the range is written as
/// running from infinity down.
pub open spec fn legend_text(range: Option<(real, real)>) -> Seq<char> {
    let (low, high) = match range {
        Some(r) => (fixed_text(r.0, 2), fixed_text(r.1, 2)),
        None => ("inf"@, "-inf"@),
    };
    "Low ("@ + low + ") "@ + shade_text(0) + " "@ + shade_text(2) + " "@ + shade_text(5) + " "@
        + shade_text(7) + " "@ + shade_text(9) + " High ("@ + high + ")"@
}

/// The label of the row `i`: empty where there is none.
pub open spec fn label_at(labels: Seq<Seq<char>>, i: int) -> Seq<char> {
    if 0 <= i < labels.len() {
        labels[i]
    } else {
        Seq::empty()
    }
}

/// The shade of `value` in a matrix of the given range.
pub open spec fn shade_in(value: real, range: Option<(real, real)>) -> Seq<char> {
    match range {
        Some(r) => shade_text(heat_level(value, r.0, r.1)),
        None => shade_text(5),
    }
}

/// The line of a heatmap for one row: its label, and for every entry its
/// shade and its value with two decimals, centred in a cell.
pub open spec fn heat_line(
    label: Seq<char>,
    row: Seq<real>,
    range: Option<(real, real)>,
    cell: nat,
) -> Seq<char> {
    right_aligned(label, cell, " "@) + chained(
        Seq::new(
            row.len(),
            |j: int|
                " "@ + centred(shade_in(row[j], range) + " "@ + fixed_text(row[j], 2), cell, " "@),
        ),
        row.len(),
    ) + "\n"@
}

/// The width of a heatmap with `cols` columns of cells `cell` wide.
pub open spec fn heatmap_width(cell: nat, cols: nat) -> nat {
    cell * (cols + 1) + cols + 2
}

/// A heatmap of the matrix under `title`: the title and the legend, the
/// column labels over a rule, and a line for every row.
pub open spec fn heatmap_text(
    m: Seq<Seq<real>>,
    row_labels: Seq<Seq<char>>,
    col_labels: Seq<Seq<char>>,
    title: Seq<char>,
    cell: nat,
) -> Seq<char> {
    let width = heatmap_width(cell, col_labels.len());
    let range = range_of(m);
    "\n"@ + centred(title, width, " "@) + "\n"@ + centred(legend_text(range), width, " "@) + "\n\n"@
        + right_aligned(Seq::empty(), cell, " "@) + chained(
        Seq::new(col_labels.len(), |j: int| " "@ + centred(col_labels[j], cell, " "@)),
        col_labels.len(),
    ) + "\n"@ + right_aligned(Seq::empty(), cell, " "@) + chained(
        Seq::new(col_labels.len(), |j: int| " "@ + centred(Seq::empty(), cell, "─"@)),
        col_labels.len(),
    ) + "\n"@ + chained(
        Seq::new(m.len(), |i: int| heat_line(label_at(row_labels, i), m[i], range, cell)),
        m.len(),
    )
}

/// The line of a compact heatmap for one row: its label, the shades of its
/// entries, and its label again.
pub open spec fn compact_line(label: Seq<char>, row: Seq<real>, range: Option<(real, real)>) -> Seq<
    char,
> {
    right_aligned(label, 8, " "@) + " "@ + chained(
        Seq::new(row.len(), |j: int| " "@ + shade_in(row[j], range) + " "@),
        row.len(),
    ) + "  <- "@ + label + "\n"@
}

/// A compact heatmap of the matrix: the column labels, and for every row
/// the shades of its entries.
pub open spec fn compact_text(
    m: Seq<Seq<real>>,
    row_labels: Seq<Seq<char>>,
    col_labels: Seq<Seq<char>>,
) -> Seq<char> {
    let range = range_of(m);
    "         "@ + chained(
        Seq::new(col_labels.len(), |j: int| " "@ + centred(col_labels[j], 7, " "@)),
        col_labels.len(),
    ) + "\n"@ + chained(
        Seq::new(m.len(), |i: int| compact_line(label_at(row_labels, i), m[i], range)),
        m.len(),
    )
}

/// A matrix has at most one least and one greatest entry.
pub proof fn lemma_range_unique(m: Seq<Seq<real>>, least: real, greatest: real)
    requires
        is_least_entry(m, least),
        is_greatest_entry(m, greatest),
    ensures
        range_of(m) == Some((least, greatest)),
{
    let lo = choose|v: real| is_least_entry(m, v);
    let hi = choose|v: real| is_greatest_entry(m, v);
    assert(is_least_entry(m, lo));
    assert(is_greatest_entry(m, hi));
    let (i, j) = choose|i: int, j: int| 0 <= i < m.len() && 0 <= j < m[i].len() && m[i][j] == least;
    assert(m[i].len() > 0);
}

/// A heatmap of a matrix.
#[derive(Debug)]
pub struct HeatmapRenderer {
    cell_width: usize,
}

impl HeatmapRenderer {
    /// The width of a cell in columns.
    pub closed spec fn cell(&self) -> nat {
        self.cell_width as nat
    }

    /// A heatmap with cells 12 columns wide.
    pub fn new() -> (r: HeatmapRenderer)
        ensures
            r.cell() == 12,
    {
        HeatmapRenderer { cell_width: 12 }
    }

    /// The width of a cell in columns.
    pub fn cell_width(&self) -> (r: usize)
        ensures
            r == self.cell(),
    {
        self.cell_width
    }

    /// The least and the greatest entry of the matrix, where it has one.
    pub fn find_range(&self, matrix: &[Vec<Rational>]) -> (r: Option<(Rational, Rational)>)
        ensures
            r is Some <==> has_entry(real_rows(matrix@)),
            r is Some ==> is_least_entry(real_rows(matrix@), (r->Some_0).0@) && is_greatest_entry(
                real_rows(matrix@),
                (r->Some_0).1@,
            ),
    {
        let ghost m = real_rows(matrix@);
        let mut found = false;
        let mut least = Rational::zero();
        let mut greatest = Rational::zero();
        let ghost mut low: (int, int) = (0, 0);
        let ghost mut high: (int, int) = (0, 0);
        let mut i: usize = 0;
        while i < matrix.len()
            invariant
                i <= matrix.len(),
                m == real_rows(matrix@),
                !found ==> forall|p: int| 0 <= p < i ==> (#[trigger] m[p]).len() == 0,
                found ==> 0 <= low.0 < i && 0 <= low.1 < m[low.0].len() && m[low.0][low.1]
                    == least@,
                found ==> 0 <= high.0 < i && 0 <= high.1 < m[high.0].len() && m[high.0][high.1]
                    == greatest@,
                found ==> forall|p: int, q: int|
                    0 <= p < i && 0 <= q < m[p].len() ==> least@ <= #[trigger] m[p][q],
                found ==> forall|p: int, q: int|
                    0 <= p < i && 0 <= q < m[p].len() ==> #[trigger] m[p][q] <= greatest@,
            decreases matrix.len() - i,
        {
            let width = matrix[i].len();
            assert(m[i as int].len() == width);
            let mut j: usize = 0;
            while j < width
                invariant
                    j <= width,
                    i < matrix.len(),
                    width == matrix@[i as int]@.len(),
                    width == m[i as int].len(),
                    m == real_rows(matrix@),
                    !found ==> j == 0 && forall|p: int|
                        0 <= p < i ==> (#[trigger] m[p]).len() == 0,
                    found ==> 0 <= low.0 <= i && 0 <= low.1 < m[low.0].len() && m[low.0][low.1]
                        == least@,
                    found ==> 0 <= high.0 <= i && 0 <= high.1 < m[high.0].len()
                        && m[high.0][high.1] == greatest@,
                    found ==> forall|p: int, q: int|
                        0 <= p < i && 0 <= q < m[p].len() ==> least@ <= #[trigger] m[p][q],
                    found ==> forall|p: int, q: int|
                        0 <= p < i && 0 <= q < m[p].len() ==> #[trigger] m[p][q] <= greatest@,
                    found ==> forall|q: int| 0 <= q < j ==> least@ <= #[trigger] m[i as int][q],
                    found ==> forall|q: int| 0 <= q < j ==> #[trigger] m[i as int][q] <= greatest@,
                decreases width - j,
            {
                assert(m[i as int][j as int] == matrix@[i as int]@[j as int]@);
                let value = &matrix[i][j];
                if !found || value.lt(&least) {
                    least = value.clone();
                    proof {
                        low = (i as int, j as int);
                    }
                }
                if !found || value.gt(&greatest) {
                    greatest = value.clone();
                    proof {
                        high = (i as int, j as int);
                    }
                }
                found = true;
                j += 1;
            }
            i += 1;
        }
        if found {
            proof {
                assert(m[low.0].len() > 0);
            }
            Some((least, greatest))
        } else {
            None
        }
    }

    /// The level of shade, from 0 to 9, of `val` in a heatmap of entries
    /// from `min_val` to `max_val`.
    pub fn heat_level_of(&self, val: &Rational, min_val: &Rational, max_val: &Rational) -> (r: usize)
        ensures
            r == heat_level(val@, min_val@, max_val@),
            r <= 9,
    {
        let range = max_val.sub(min_val);
        if range.abs().lt(&Rational::one().div(&Rational::from_int(10_000_000_000))) {
            return 5;
        }
        let level = val.sub(min_val).div(&range).mul(&Rational::from_int(9)).round_to_usize();
        if level <= 9 {
            level
        } else {
            9
        }
    }

    /// The shade of `val` in a heatmap of entries from `min_val` to
    /// `max_val`: three characters, the darker the nearer to `max_val`.
    pub fn value_to_heat(&self, val: &Rational, min_val: &Rational, max_val: &Rational) -> (r:
        &'static str)
        ensures
            r@ == shade_text(heat_level(val@, min_val@, max_val@)),
    {
        HeatmapRenderer::shade(self.heat_level_of(val, min_val, max_val))
    }
}

impl HeatmapRenderer {
    /// The three characters of a shade.
    fn shade(level: usize) -> (r: &'static str)
        ensures
            r@ == shade_text(level),
    {
        match level {
            0 => "░░░",
            1 => "░░▒",
            2 => "░▒▒",
            3 => "▒▒▒",
            4 => "▒▒▓",
            5 => "▒▓▓",
            6 => "▓▓▓",
            7 => "▓▓█",
            8 => "▓██",
            _ => "███",
        }
    }

    /// The range of the matrix.
    fn range(&self, matrix: &[Vec<Rational>]) -> (r: Option<(Rational, Rational)>)
        ensures
            match range_of(real_rows(matrix@)) {
                Some(e) => r is Some && (r->Some_0).0@ == e.0 && (r->Some_0).1@ == e.1,
                None => r is None,
            },
    {
        let r = self.find_range(matrix);
        proof {
            if r is Some {
                lemma_range_unique(real_rows(matrix@), (r->Some_0).0@, (r->Some_0).1@);
            }
        }
        r
    }

    /// The shade of `value` in a matrix of the given range.
    fn shade_of(&self, value: &Rational, range: &Option<(Rational, Rational)>) -> (r: &'static str)
        ensures
            r@ == shade_in(
                value@,
                match *range {
                    Some(e) => Some((e.0@, e.1@)),
                    None => None,
                },
            ),
    {
        match range {
            Some((least, greatest)) => self.value_to_heat(value, least, greatest),
            None => HeatmapRenderer::shade(5),
        }
    }

    /// The legend of a heatmap of the given range.
    fn render_legend(range: &Option<(Rational, Rational)>) -> (r: String)
        ensures
            r@ == legend_text(
                match *range {
                    Some(e) => Some((e.0@, e.1@)),
                    None => None,
                },
            ),
    {
        let (low, high) = match range {
            Some((least, greatest)) => (fixed(least, 2), fixed(greatest, 2)),
            None => (String::from_str("inf"), String::from_str("-inf")),
        };
        let mut out = String::from_str("Low (");
        out.append(low.as_str());
        out.append(") ");
        out.append(HeatmapRenderer::shade(0));
        out.append(" ");
        out.append(HeatmapRenderer::shade(2));
        out.append(" ");
        out.append(HeatmapRenderer::shade(5));
        out.append(" ");
        out.append(HeatmapRenderer::shade(7));
        out.append(" ");
        out.append(HeatmapRenderer::shade(9));
        out.append(" High (");
        out.append(high.as_str());
        out.append(")");
        out
    }

    /// The label of the row `i`: empty where there is none.
    fn label_of<'a>(labels: &[&'a str], i: usize) -> (r: &'a str)
        ensures
            r@ == label_at(label_texts(labels@), i as int),
    {
        if i < labels.len() {
            assert(label_texts(labels@)[i as int] == labels@[i as int]@);
            labels[i]
        } else {
            proof {
                reveal_strlit("");
                assert(""@ =~= Seq::<char>::empty());
            }
            ""
        }
    }

    /// A heatmap of the matrix under `title`, with a legend.
    pub fn render(&self, matrix: &[Vec<Rational>], row_labels: &[&str], col_labels: &[&str], title: &str) -> (r:
        String)
        requires
            heatmap_width(self.cell(), col_labels.len() as nat) <= usize::MAX,
        ensures
            r@ == heatmap_text(
                real_rows(matrix@),
                label_texts(row_labels@),
                label_texts(col_labels@),
                title@,
                self.cell(),
            ),
    {
        proof {
            reveal_strlit("");
            assert(""@ =~= Seq::<char>::empty());
        }
        let ghost m = real_rows(matrix@);
        let ghost rows = label_texts(row_labels@);
        let ghost cols = label_texts(col_labels@);
        let ghost cell = self.cell();
        let cell_width = self.cell_width;
        let range = self.range(matrix);
        let ghost span = range_of(m);
        assert(cell_width * (col_labels.len() + 1) <= usize::MAX) by (nonlinear_arith)
            requires
                cell_width * (col_labels.len() + 1) + col_labels.len() + 2 <= usize::MAX,
        ;
        let total_width = cell_width * (col_labels.len() + 1) + col_labels.len() + 2;
        let ghost heads = Seq::new(cols.len(), |j: int| " "@ + centred(cols[j], cell, " "@));
        let ghost rules = Seq::new(
            cols.len(),
            |j: int| " "@ + centred(Seq::<char>::empty(), cell, "─"@),
        );
        let mut header = String::new();
        let mut rule = String::new();
        let mut j: usize = 0;
        assert(header@ =~= chained(heads, 0));
        assert(rule@ =~= chained(rules, 0));
        while j < col_labels.len()
            invariant
                j <= col_labels.len(),
                cell_width == cell,
                cols == label_texts(col_labels@),
                heads == Seq::new(cols.len(), |j: int| " "@ + centred(cols[j], cell, " "@)),
                rules == Seq::new(
                    cols.len(),
                    |j: int| " "@ + centred(Seq::<char>::empty(), cell, "─"@),
                ),
                header@ == chained(heads, j as nat),
                rule@ == chained(rules, j as nat),
                ""@ == Seq::<char>::empty(),
            decreases col_labels.len() - j,
        {
            assert(cols[j as int] == col_labels@[j as int]@);
            let head = String::from_str(" ").concat(centre(col_labels[j], cell_width, " ").as_str());
            assert(head@ == heads[j as int]);
            header.append(head.as_str());
            let dash = String::from_str(" ").concat(centre("", cell_width, "─").as_str());
            assert(dash@ == rules[j as int]);
            rule.append(dash.as_str());
            j += 1;
        }
        let ghost lines = Seq::new(
            m.len(),
            |i: int| heat_line(label_at(rows, i), m[i], span, cell),
        );
        let mut body = String::new();
        let mut i: usize = 0;
        assert(body@ =~= chained(lines, 0));
        while i < matrix.len()
            invariant
                i <= matrix.len(),
                cell_width == cell,
                cell == self.cell(),
                m == real_rows(matrix@),
                rows == label_texts(row_labels@),
                span == match range {
                    Some(e) => Some((e.0@, e.1@)),
                    None => None,
                },
                lines == Seq::new(m.len(), |i: int| heat_line(label_at(rows, i), m[i], span, cell)),
                body@ == chained(lines, i as nat),
            decreases matrix.len() - i,
        {
            let ghost row = m[i as int];
            let ghost cells = Seq::new(
                row.len(),
                |j: int|
                    " "@ + centred(shade_in(row[j], span) + " "@ + fixed_text(row[j], 2), cell, " "@),
            );
            assert(row.len() == matrix@[i as int]@.len());
            let mut entries = String::new();
            let mut k: usize = 0;
            assert(entries@ =~= chained(cells, 0));
            while k < matrix[i].len()
                invariant
                    k <= matrix@[i as int]@.len(),
                    i < matrix.len(),
                    cell_width == cell,
                    cell == self.cell(),
                    m == real_rows(matrix@),
                    row == m[i as int],
                    span == match range {
                        Some(e) => Some((e.0@, e.1@)),
                        None => None,
                    },
                    cells == Seq::new(
                        row.len(),
                        |j: int|
                            " "@ + centred(
                                shade_in(row[j], span) + " "@ + fixed_text(row[j], 2),
                                cell,
                                " "@,
                            ),
                    ),
                    entries@ == chained(cells, k as nat),
                decreases matrix@[i as int]@.len() - k,
            {
                assert(row[k as int] == matrix@[i as int]@[k as int]@);
                let value = &matrix[i][k];
                let mut inner = String::from_str(self.shade_of(value, &range));
                inner.append(" ");
                inner.append(fixed(value, 2).as_str());
                let entry = String::from_str(" ").concat(
                    centre(inner.as_str(), cell_width, " ").as_str(),
                );
                assert(entry@ == cells[k as int]);
                entries.append(entry.as_str());
                k += 1;
            }
            let mut line = align_right(HeatmapRenderer::label_of(row_labels, i), cell_width, " ");
            line.append(entries.as_str());
            line.append("\n");
            assert(line@ == lines[i as int]);
            body.append(line.as_str());
            i += 1;
        }
        let mut out = String::from_str("\n");
        out.append(centre(title, total_width, " ").as_str());
        out.append("\n");
        out.append(
            centre(HeatmapRenderer::render_legend(&range).as_str(), total_width, " ").as_str(),
        );
        out.append("\n\n");
        out.append(align_right("", cell_width, " ").as_str());
        out.append(header.as_str());
        out.append("\n");
        out.append(align_right("", cell_width, " ").as_str());
        out.append(rule.as_str());
        out.append("\n");
        out.append(body.as_str());
        proof {
            assert(out@ =~= heatmap_text(m, rows, cols, title@, cell));
        }
        out
    }

    /// A compact heatmap of the matrix: shades only.
    pub fn render_compact(&self, matrix: &[Vec<Rational>], row_labels: &[&str], col_labels: &[&str]) -> (r:
        String)
        ensures
            r@ == compact_text(
                real_rows(matrix@),
                label_texts(row_labels@),
                label_texts(col_labels@),
            ),
    {
        let ghost m = real_rows(matrix@);
        let ghost rows = label_texts(row_labels@);
        let ghost cols = label_texts(col_labels@);
        let range = self.range(matrix);
        let ghost span = range_of(m);
        let ghost heads = Seq::new(cols.len(), |j: int| " "@ + centred(cols[j], 7, " "@));
        let mut header = String::new();
        let mut j: usize = 0;
        assert(header@ =~= chained(heads, 0));
        while j < col_labels.len()
            invariant
                j <= col_labels.len(),
                cols == label_texts(col_labels@),
                heads == Seq::new(cols.len(), |j: int| " "@ + centred(cols[j], 7, " "@)),
                header@ == chained(heads, j as nat),
            decreases col_labels.len() - j,
        {
            assert(cols[j as int] == col_labels@[j as int]@);
            let head = String::from_str(" ").concat(centre(col_labels[j], 7, " ").as_str());
            assert(head@ == heads[j as int]);
            header.append(head.as_str());
            j += 1;
        }
        let ghost lines = Seq::new(m.len(), |i: int| compact_line(label_at(rows, i), m[i], span));
        let mut body = String::new();
        let mut i: usize = 0;
        assert(body@ =~= chained(lines, 0));
        while i < matrix.len()
            invariant
                i <= matrix.len(),
                m == real_rows(matrix@),
                rows == label_texts(row_labels@),
                span == match range {
                    Some(e) => Some((e.0@, e.1@)),
                    None => None,
                },
                lines == Seq::new(m.len(), |i: int| compact_line(label_at(rows, i), m[i], span)),
                body@ == chained(lines, i as nat),
            decreases matrix.len() - i,
        {
            let ghost row = m[i as int];
            let ghost cells = Seq::new(row.len(), |j: int| " "@ + shade_in(row[j], span) + " "@);
            assert(row.len() == matrix@[i as int]@.len());
            let mut entries = String::new();
            let mut k: usize = 0;
            assert(entries@ =~= chained(cells, 0));
            while k < matrix[i].len()
                invariant
                    k <= matrix@[i as int]@.len(),
                    i < matrix.len(),
                    m == real_rows(matrix@),
                    row == m[i as int],
                    span == match range {
                        Some(e) => Some((e.0@, e.1@)),
                        None => None,
                    },
                    cells == Seq::new(row.len(), |j: int| " "@ + shade_in(row[j], span) + " "@),
                    entries@ == chained(cells, k as nat),
                decreases matrix@[i as int]@.len() - k,
            {
                assert(row[k as int] == matrix@[i as int]@[k as int]@);
                let mut entry = String::from_str(" ");
                entry.append(self.shade_of(&matrix[i][k], &range));
                entry.append(" ");
                assert(entry@ == cells[k as int]);
                entries.append(entry.as_str());
                k += 1;
            }
            let label = HeatmapRenderer::label_of(row_labels, i);
            let mut line = align_right(label, 8, " ");
            line.append(" ");
            line.append(entries.as_str());
            line.append("  <- ");
            line.append(label);
            line.append("\n");
            assert(line@ =~= lines[i as int]);
            body.append(line.as_str());
            i += 1;
        }
        let mut out = String::from_str("         ");
        out.append(header.as_str());
        out.append("\n");
        out.append(body.as_str());
        proof {
            assert(out@ =~= compact_text(m, rows, cols));
        }
        out
    }
}

impl Default for HeatmapRenderer {
    /// The heatmap that `new` gives.
    fn default() -> (r: HeatmapRenderer)
        ensures
            r.cell() == 12,
    {
        HeatmapRenderer::new()
    }
}

} // verus!
