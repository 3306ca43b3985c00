//! Bar charts: how long each bar is.

use super::ascii::percent_text;
use super::layout::{
    align_left, align_right, centre, centred, chained, left_aligned, repeat, repeated_text,
    right_aligned,
};
use crate::exact::decimal::fixed;
use crate::exact::rational::{rounded, saturated, Rational};
use crate::exact::vector::{reals, sum, total};
use vstd::string::{StringExecFns, StringSliceAdditionalSpecFns};
use vstd::prelude::*;

verus! {

/// The length of the bar for `value` in a chart `width` columns wide whose
/// full width stands for `whole`: their ratio times the width, rounded.
/// Without a whole, a positive value is longer than every bar and another
/// has no length.
pub open spec fn bar_length_of(value: real, whole: real, width: nat) -> usize {
    if whole == 0real {
        if value > 0real {
            usize::MAX
        } else {
            0
        }
    } else {
        saturated(rounded(value / whole * (width as real)))
    }
}

/// The range below which the values of a sparkline count as equal: `1e-10`.
pub open spec fn flat_range() -> real {
    1real / 10000000000real
}

/// The level, from 0 to 7, of `value` in a sparkline of values from `least`
/// to `greatest`: the middle level where the values hardly differ.
pub open spec fn spark_level(value: real, least: real, greatest: real) -> usize {
    if greatest - least < flat_range() {
        4
    } else {
        let level = saturated(rounded((value - least) / (greatest - least) * 7real));
        if level <= 7 {
            level
        } else {
            7
        }
    }
}

/// `v` is an entry of `s` and no entry is smaller.
pub open spec fn is_least_of(s: Seq<real>, v: real) -> bool {
    &&& exists|i: int| 0 <= i < s.len() && s[i] == v
    &&& forall|i: int| 0 <= i < s.len() ==> s[i] >= v
}

/// `v` is an entry of `s` and no entry is larger.
pub open spec fn is_greatest_of(s: Seq<real>, v: real) -> bool {
    &&& exists|i: int| 0 <= i < s.len() && s[i] == v
    &&& forall|i: int| 0 <= i < s.len() ==> s[i] <= v
}

/// The labelled values of a chart in reals.
pub open spec fn valued(data: Seq<(&str, Rational)>) -> Seq<(Seq<char>, real)> {
    Seq::new(data.len(), |i: int| (data[i].0@, data[i].1@))
}

/// The texts of a list of labels.
pub open spec fn label_texts(labels: Seq<&str>) -> Seq<Seq<char>> {
    Seq::new(labels.len(), |i: int| labels[i]@)
}

/// The length of a text in bytes.
pub open spec fn byte_length(text: &str) -> nat {
    text.spec_bytes().len() as usize as nat
}

/// The head of a chart: its title between line breaks, underlined over
/// `underline` columns.
pub open spec fn head_text(title: Seq<char>, underline: nat) -> Seq<char> {
    "\n"@ + title + "\n"@ + repeated_text("─"@, underline) + "\n"@
}

/// The line of a bar chart for one value: its label, its bar between rules
/// and its percentage.
pub open spec fn bar_line(
    entry: (Seq<char>, real),
    max_value: real,
    bar_width: nat,
    label_width: nat,
) -> Seq<char> {
    right_aligned(entry.0, label_width, " "@) + " │"@ + left_aligned(
        repeated_text("█"@, bar_length_of(entry.1, max_value, bar_width) as nat),
        bar_width,
        " "@,
    ) + "│ "@ + percent_text(entry.1) + "\n"@
}

/// The scale under a bar chart: a rule as long as the longest bar, from 0%
/// to 100%.
pub open spec fn scale_text(bar_width: nat, label_width: nat) -> Seq<char> {
    right_aligned(Seq::empty(), label_width, " "@) + " └"@ + repeated_text("─"@, bar_width) + "┘\n"@
        + right_aligned(Seq::empty(), label_width, " "@) + "  0%"@ + centred(
        Seq::empty(),
        (bar_width - 6) as nat,
        " "@,
    ) + "100%\n"@
}

/// A bar chart of the values `data` under `title`.
pub open spec fn chart_text(
    title: Seq<char>,
    underline: nat,
    data: Seq<(Seq<char>, real)>,
    max_value: real,
    bar_width: nat,
    label_width: nat,
) -> Seq<char> {
    head_text(title, underline) + "\n"@ + chained(
        Seq::new(data.len(), |i: int| bar_line(data[i], max_value, bar_width, label_width)),
        data.len(),
    ) + scale_text(bar_width, label_width)
}

/// The value at `i` of a series; zero beyond its end.
pub open spec fn value_at(series: Seq<real>, i: int) -> real {
    if 0 <= i < series.len() {
        series[i]
    } else {
        0real
    }
}

/// The line of a comparison for one label: the bars of both series side by
/// side, and both values in percent.
pub open spec fn comparison_line(
    label: Seq<char>,
    first: real,
    second: real,
    bar_width: nat,
    label_width: nat,
) -> Seq<char> {
    let half = bar_width / 2;
    right_aligned(label, label_width, " "@) + " │"@ + left_aligned(
        repeated_text("█"@, bar_length_of(first, 1real, half) as nat),
        half,
        " "@,
    ) + "│"@ + left_aligned(repeated_text("░"@, bar_length_of(second, 1real, half) as nat), half, " "@)
        + "│ "@ + percent_text(first) + " vs "@ + percent_text(second) + "\n"@
}

/// A comparison of two series under `title`, a line for every label.
pub open spec fn comparison_text(
    title: Seq<char>,
    underline: nat,
    labels: Seq<Seq<char>>,
    first: (Seq<char>, Seq<real>),
    second: (Seq<char>, Seq<real>),
    bar_width: nat,
    label_width: nat,
) -> Seq<char> {
    head_text(title, underline) + "  "@ + first.0 + " = ████  "@ + second.0 + " = ░░░░\n\n"@ + chained(
        Seq::new(
            labels.len(),
            |i: int|
                comparison_line(
                    labels[i],
                    value_at(first.1, i),
                    value_at(second.1, i),
                    bar_width,
                    label_width,
                ),
        ),
        labels.len(),
    )
}

/// The block that draws the part with the number `i` of a distribution.
pub open spec fn shade_text(i: int) -> Seq<char> {
    if i % 3 == 0 {
        "█"@
    } else if i % 3 == 1 {
        "▓"@
    } else {
        "░"@
    }
}

/// The share of `value` in `whole` in percent with one decimal; `NaN`
/// without a whole.
pub open spec fn share_percent(value: real, whole: real) -> Seq<char> {
    if whole == 0real {
        "NaN%"@
    } else {
        percent_text(value / whole)
    }
}

/// The smaller of two lengths.
pub open spec fn shorter(a: nat, b: nat) -> nat {
    if a <= b {
        a
    } else {
        b
    }
}

/// A distribution under `title`: one bar of its parts in different shades,
/// and a legend with the share of every labelled part.
pub open spec fn distribution_text(
    title: Seq<char>,
    underline: nat,
    labels: Seq<Seq<char>>,
    values: Seq<real>,
    bar_width: nat,
) -> Seq<char> {
    head_text(title, underline) + "\n  ["@ + chained(
        Seq::new(
            values.len(),
            |i: int|
                repeated_text(shade_text(i), bar_length_of(values[i], total(values), bar_width) as nat),
        ),
        values.len(),
    ) + "]\n\n"@ + chained(
        Seq::new(
            shorter(labels.len(), values.len()),
            |i: int|
                "  "@ + shade_text(i) + " "@ + labels[i] + " = "@ + share_percent(
                    values[i],
                    total(values),
                ) + "\n"@,
        ),
        shorter(labels.len(), values.len()),
    )
}

/// The block of a sparkline for a level: the higher the level, the taller.
pub open spec fn block_text(level: usize) -> Seq<char> {
    if level == 0 {
        "▁"@
    } else if level == 1 {
        "▂"@
    } else if level == 2 {
        "▃"@
    } else if level == 3 {
        "▄"@
    } else if level == 4 {
        "▅"@
    } else if level == 5 {
        "▆"@
    } else if level == 6 {
        "▇"@
    } else {
        "█"@
    }
}

/// The sparkline for the given levels.
pub open spec fn sparkline_text(levels: Seq<usize>) -> Seq<char> {
    chained(Seq::new(levels.len(), |i: int| block_text(levels[i])), levels.len())
}

/// A chart of horizontal bars.
#[derive(Debug)]
pub struct BarChart {
    max_bar_width: usize,
    label_width: usize,
}

impl BarChart {
    /// The bars leave room for the scale under them: six columns at least.
    #[verifier::type_invariant]
    spec fn well_formed(&self) -> bool {
        self.max_bar_width >= 6
    }

    /// The length of the longest bar.
    pub closed spec fn bar_width(&self) -> nat {
        self.max_bar_width as nat
    }

    /// The width of the column of labels.
    pub closed spec fn labels(&self) -> nat {
        self.label_width as nat
    }

    /// A chart with bars of up to 40 columns and labels of 15.
    pub fn new() -> (r: BarChart)
        ensures
            r.bar_width() == 40,
            r.labels() == 15,
    {
        BarChart { max_bar_width: 40, label_width: 15 }
    }

    /// The length of the longest bar.
    pub fn max_bar_width(&self) -> (r: usize)
        ensures
            r == self.bar_width(),
            r >= 6,
    {
        proof {
            use_type_invariant(self);
        }
        self.max_bar_width
    }

    /// The width of the column of labels.
    pub fn label_width(&self) -> (r: usize)
        ensures
            r == self.labels(),
    {
        self.label_width
    }

    /// The length of the bar for `value` where the longest bar stands for
    /// `max_value`.
    pub fn bar_length(&self, value: &Rational, max_value: &Rational) -> (r: usize)
        ensures
            r == bar_length_of(value@, max_value@, self.bar_width()),
    {
        BarChart::length(value, max_value, self.max_bar_width)
    }

    /// The length of the bar for `value` in a comparison of two series,
    /// where each series has half the chart and its full width stands for
    /// one.
    pub fn comparison_length(&self, value: &Rational) -> (r: usize)
        ensures
            r == bar_length_of(value@, 1real, self.bar_width() / 2),
    {
        BarChart::length(value, &Rational::one(), self.max_bar_width / 2)
    }

    /// The length of the bar for `value` in a chart `width` columns wide
    /// whose full width stands for `whole`.
    fn length(value: &Rational, whole: &Rational, width: usize) -> (r: usize)
        ensures
            r == bar_length_of(value@, whole@, width as nat),
    {
        if whole.is_zero() {
            if value.is_positive() {
                usize::MAX
            } else {
                0
            }
        } else {
            value.div(whole).mul(&Rational::from_usize(width)).round_to_usize()
        }
    }
}

impl BarChart {
    /// The probability in percent with one decimal.
    fn percent(value: &Rational) -> (r: String)
        ensures
            r@ == percent_text(value@),
    {
        fixed(&value.mul(&Rational::from_int(100)), 1).concat("%")
    }

    /// The head of a chart.
    fn head(title: &str) -> (r: String)
        ensures
            r@ == head_text(title@, byte_length(title)),
    {
        let mut out = String::from_str("\n");
        out.append(title);
        out.append("\n");
        out.append(repeat("─", title.len()).as_str());
        out.append("\n");
        out
    }

    /// The block that draws the part with the number `i`.
    fn shade(i: usize) -> (r: &'static str)
        ensures
            r@ == shade_text(i as int),
    {
        if i % 3 == 0 {
            "█"
        } else if i % 3 == 1 {
            "▓"
        } else {
            "░"
        }
    }

    /// A bar chart of the values `data` under `title`, the longest bar
    /// standing for `max_value`.
    pub fn render(&self, title: &str, data: &[(&str, Rational)], max_value: &Rational) -> (r: String)
        ensures
            r@ == chart_text(
                title@,
                byte_length(title),
                valued(data@),
                max_value@,
                self.bar_width(),
                self.labels(),
            ),
    {
        proof {
            use_type_invariant(self);
            reveal_strlit("");
            assert(""@ =~= Seq::<char>::empty());
        }
        let ghost entries = valued(data@);
        let ghost lines = Seq::new(
            entries.len(),
            |i: int| bar_line(entries[i], max_value@, self.bar_width(), self.labels()),
        );
        let mut body = String::new();
        let mut i: usize = 0;
        assert(body@ =~= chained(lines, 0));
        while i < data.len()
            invariant
                i <= data.len(),
                entries == valued(data@),
                lines == Seq::new(
                    entries.len(),
                    |i: int| bar_line(entries[i], max_value@, self.bar_width(), self.labels()),
                ),
                body@ == chained(lines, i as nat),
            decreases data.len() - i,
        {
            assert(entries[i as int] == (data@[i as int].0@, data@[i as int].1@));
            let bar = repeat("█", self.bar_length(&data[i].1, max_value));
            let mut line = align_right(data[i].0, self.label_width, " ");
            line.append(" │");
            line.append(align_left(bar.as_str(), self.max_bar_width, " ").as_str());
            line.append("│ ");
            line.append(BarChart::percent(&data[i].1).as_str());
            line.append("\n");
            assert(line@ == lines[i as int]);
            body.append(line.as_str());
            i += 1;
        }
        let mut out = BarChart::head(title);
        out.append("\n");
        out.append(body.as_str());
        out.append(align_right("", self.label_width, " ").as_str());
        out.append(" └");
        out.append(repeat("─", self.max_bar_width).as_str());
        out.append("┘\n");
        out.append(align_right("", self.label_width, " ").as_str());
        out.append("  0%");
        out.append(centre("", self.max_bar_width - 6, " ").as_str());
        out.append("100%\n");
        proof {
            assert(out@ =~= chart_text(
                title@,
                byte_length(title),
                entries,
                max_value@,
                self.bar_width(),
                self.labels(),
            ));
        }
        out
    }

    /// The value at `i` of a series; zero beyond its end.
    fn value_of(series: &[Rational], i: usize) -> (r: Rational)
        ensures
            r@ == value_at(reals(series@), i as int),
    {
        if i < series.len() {
            assert(reals(series@)[i as int] == series@[i as int]@);
            series[i].clone()
        } else {
            Rational::zero()
        }
    }

    /// A comparison of two named series under `title`: for every label the
    /// bars of both side by side.
    pub fn render_comparison(
        &self,
        title: &str,
        labels: &[&str],
        series1: (&str, &[Rational]),
        series2: (&str, &[Rational]),
    ) -> (r: String)
        ensures
            r@ == comparison_text(
                title@,
                byte_length(title),
                label_texts(labels@),
                (series1.0@, reals(series1.1@)),
                (series2.0@, reals(series2.1@)),
                self.bar_width(),
                self.labels(),
            ),
    {
        let ghost names = label_texts(labels@);
        let ghost first = reals(series1.1@);
        let ghost second = reals(series2.1@);
        let ghost lines = Seq::new(
            names.len(),
            |i: int|
                comparison_line(
                    names[i],
                    value_at(first, i),
                    value_at(second, i),
                    self.bar_width(),
                    self.labels(),
                ),
        );
        let half = self.max_bar_width / 2;
        let mut body = String::new();
        let mut i: usize = 0;
        assert(body@ =~= chained(lines, 0));
        while i < labels.len()
            invariant
                i <= labels.len(),
                half == self.bar_width() / 2,
                names == label_texts(labels@),
                first == reals(series1.1@),
                second == reals(series2.1@),
                lines == Seq::new(
                    names.len(),
                    |i: int|
                        comparison_line(
                            names[i],
                            value_at(first, i),
                            value_at(second, i),
                            self.bar_width(),
                            self.labels(),
                        ),
                ),
                body@ == chained(lines, i as nat),
            decreases labels.len() - i,
        {
            assert(names[i as int] == labels@[i as int]@);
            let one = BarChart::value_of(series1.1, i);
            let two = BarChart::value_of(series2.1, i);
            let mut line = align_right(labels[i], self.label_width, " ");
            line.append(" │");
            line.append(
                align_left(repeat("█", self.comparison_length(&one)).as_str(), half, " ").as_str(),
            );
            line.append("│");
            line.append(
                align_left(repeat("░", self.comparison_length(&two)).as_str(), half, " ").as_str(),
            );
            line.append("│ ");
            line.append(BarChart::percent(&one).as_str());
            line.append(" vs ");
            line.append(BarChart::percent(&two).as_str());
            line.append("\n");
            assert(line@ == lines[i as int]);
            body.append(line.as_str());
            i += 1;
        }
        let mut out = BarChart::head(title);
        out.append("  ");
        out.append(series1.0);
        out.append(" = ████  ");
        out.append(series2.0);
        out.append(" = ░░░░\n\n");
        out.append(body.as_str());
        proof {
            assert(out@ =~= comparison_text(
                title@,
                byte_length(title),
                names,
                (series1.0@, first),
                (series2.0@, second),
                self.bar_width(),
                self.labels(),
            ));
        }
        out
    }

    /// A distribution under `title`: one bar of its parts, and a legend
    /// with the share of every labelled part.
    pub fn render_distribution(&self, title: &str, labels: &[&str], values: &[Rational]) -> (r:
        String)
        ensures
            r@ == distribution_text(
                title@,
                byte_length(title),
                label_texts(labels@),
                reals(values@),
                self.bar_width(),
            ),
    {
        let ghost names = label_texts(labels@);
        let ghost v = reals(values@);
        let whole = sum(values);
        let ghost parts = Seq::new(
            v.len(),
            |i: int|
                repeated_text(
                    shade_text(i),
                    bar_length_of(v[i], total(v), self.bar_width()) as nat,
                ),
        );
        let mut bar = String::new();
        let mut i: usize = 0;
        assert(bar@ =~= chained(parts, 0));
        while i < values.len()
            invariant
                i <= values.len(),
                v == reals(values@),
                whole@ == total(v),
                parts == Seq::new(
                    v.len(),
                    |i: int|
                        repeated_text(
                            shade_text(i),
                            bar_length_of(v[i], total(v), self.bar_width()) as nat,
                        ),
                ),
                bar@ == chained(parts, i as nat),
            decreases values.len() - i,
        {
            assert(v[i as int] == values@[i as int]@);
            let part = repeat(BarChart::shade(i), self.bar_length(&values[i], &whole));
            assert(part@ == parts[i as int]);
            bar.append(part.as_str());
            i += 1;
        }
        let count = if labels.len() <= values.len() {
            labels.len()
        } else {
            values.len()
        };
        let ghost lines = Seq::new(
            shorter(names.len(), v.len()),
            |i: int|
                "  "@ + shade_text(i) + " "@ + names[i] + " = "@ + share_percent(v[i], total(v))
                    + "\n"@,
        );
        let mut legend = String::new();
        let mut k: usize = 0;
        assert(legend@ =~= chained(lines, 0));
        while k < count
            invariant
                k <= count,
                count == shorter(names.len(), v.len()),
                count <= labels.len(),
                count <= values.len(),
                names == label_texts(labels@),
                v == reals(values@),
                whole@ == total(v),
                lines == Seq::new(
                    shorter(names.len(), v.len()),
                    |i: int|
                        "  "@ + shade_text(i) + " "@ + names[i] + " = "@ + share_percent(
                            v[i],
                            total(v),
                        ) + "\n"@,
                ),
                legend@ == chained(lines, k as nat),
            decreases count - k,
        {
            assert(v[k as int] == values@[k as int]@);
            assert(names[k as int] == labels@[k as int]@);
            let share = if whole.is_zero() {
                String::from_str("NaN%")
            } else {
                BarChart::percent(&values[k].div(&whole))
            };
            let mut line = String::from_str("  ");
            line.append(BarChart::shade(k));
            line.append(" ");
            line.append(labels[k]);
            line.append(" = ");
            line.append(share.as_str());
            line.append("\n");
            assert(line@ =~= lines[k as int]);
            legend.append(line.as_str());
            k += 1;
        }
        let mut out = BarChart::head(title);
        out.append("\n  [");
        out.append(bar.as_str());
        out.append("]\n\n");
        out.append(legend.as_str());
        proof {
            assert(out@ =~= distribution_text(
                title@,
                byte_length(title),
                names,
                v,
                self.bar_width(),
            ));
        }
        out
    }
}

impl Default for BarChart {
    /// The chart that `new` gives.
    fn default() -> (r: BarChart)
        ensures
            r.bar_width() == 40,
            r.labels() == 15,
    {
        BarChart::new()
    }
}

/// The least and the greatest of the values, where there is one.
pub fn extremes(values: &[Rational]) -> (r: Option<(Rational, Rational)>)
    ensures
        r is Some <==> values.len() > 0,
        r is Some ==> is_least_of(reals(values@), (r->Some_0).0@) && is_greatest_of(
            reals(values@),
            (r->Some_0).1@,
        ),
{
    if values.len() == 0 {
        return None;
    }
    let ghost v = reals(values@);
    let mut least = values[0].clone();
    let mut greatest = values[0].clone();
    let ghost mut low: int = 0;
    let ghost mut high: int = 0;
    assert(v[0] == values@[0]@);
    let mut i: usize = 1;
    while i < values.len()
        invariant
            1 <= i <= values.len(),
            v == reals(values@),
            0 <= low < i && v[low] == least@,
            0 <= high < i && v[high] == greatest@,
            forall|k: int| 0 <= k < i ==> v[k] >= least@,
            forall|k: int| 0 <= k < i ==> v[k] <= greatest@,
        decreases values.len() - i,
    {
        assert(v[i as int] == values@[i as int]@);
        if values[i].lt(&least) {
            least = values[i].clone();
            proof {
                low = i as int;
            }
        }
        if values[i].gt(&greatest) {
            greatest = values[i].clone();
            proof {
                high = i as int;
            }
        }
        i += 1;
    }
    Some((least, greatest))
}

/// The levels of a sparkline of the values: for each value its level from
/// 0 to 7 between the least and the greatest of them.
pub fn sparkline_levels(values: &[Rational]) -> (r: Vec<usize>)
    ensures
        r.len() == values.len(),
        forall|least: real, greatest: real, i: int|
            #![trigger spark_level(reals(values@)[i], least, greatest)]
            is_least_of(reals(values@), least) && is_greatest_of(reals(values@), greatest) && 0
                <= i < r.len() ==> r@[i] == spark_level(reals(values@)[i], least, greatest),
        forall|i: int| 0 <= i < r.len() ==> (#[trigger] r@[i]) <= 7,
{
    let mut levels: Vec<usize> = Vec::new();
    let (least, greatest) = match extremes(values) {
        Some(e) => e,
        None => {
            return levels;
        },
    };
    let ghost v = reals(values@);
    let range = greatest.sub(&least);
    let flat = range.lt(&Rational::one().div(&Rational::from_int(10_000_000_000)));
    let mut i: usize = 0;
    while i < values.len()
        invariant
            i <= values.len(),
            v == reals(values@),
            is_least_of(v, least@),
            is_greatest_of(v, greatest@),
            range@ == greatest@ - least@,
            flat == (range@ < flat_range()),
            levels.len() == i,
            forall|k: int| 0 <= k < i ==> (#[trigger] levels@[k]) == spark_level(v[k], least@, greatest@),
        decreases values.len() - i,
    {
        assert(v[i as int] == values@[i as int]@);
        let level = if flat {
            4
        } else {
            let raw = values[i].sub(&least).div(&range).mul(&Rational::from_int(7)).round_to_usize();
            if raw <= 7 {
                raw
            } else {
                7
            }
        };
        levels.push(level);
        i += 1;
    }
    proof {
        assert forall|lo: real, hi: real| is_least_of(v, lo) && is_greatest_of(v, hi) implies lo
            == least@ && hi == greatest@ by {}
    }
    levels
}

/// The block of a sparkline for a level.
fn block(level: usize) -> (r: &'static str)
    ensures
        r@ == block_text(level),
{
    match level {
        0 => "▁",
        1 => "▂",
        2 => "▃",
        3 => "▄",
        4 => "▅",
        5 => "▆",
        6 => "▇",
        _ => "█",
    }
}

/// A sparkline of the values: for each value a block as tall as its level
/// between the least and the greatest of them.
pub fn sparkline(values: &[Rational]) -> (r: String)
    ensures
        exists|levels: Seq<usize>|
            #![trigger sparkline_text(levels)]
            {
                &&& r@ == sparkline_text(levels)
                &&& levels.len() == values.len()
                &&& forall|least: real, greatest: real, i: int|
                    #![trigger spark_level(reals(values@)[i], least, greatest)]
                    is_least_of(reals(values@), least) && is_greatest_of(reals(values@), greatest)
                        && 0 <= i < levels.len() ==> levels[i] == spark_level(
                        reals(values@)[i],
                        least,
                        greatest,
                    )
            },
{
    let levels = sparkline_levels(values);
    let ghost parts = Seq::new(levels@.len(), |i: int| block_text(levels@[i]));
    let mut out = String::new();
    let mut i: usize = 0;
    assert(out@ =~= chained(parts, 0));
    while i < levels.len()
        invariant
            i <= levels.len(),
            parts == Seq::new(levels@.len(), |i: int| block_text(levels@[i])),
            out@ == chained(parts, i as nat),
        decreases levels.len() - i,
    {
        out.append(block(levels[i]));
        assert(parts[i as int] == block_text(levels@[i as int]));
        i += 1;
    }
    assert(out@ == sparkline_text(levels@));
    out
}

} // verus!
