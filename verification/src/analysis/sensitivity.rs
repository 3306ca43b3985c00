//! How the equilibrium of a penalty kick moves when one success rate
//! changes.

use super::simulation::probabilities;
use crate::exact::rational::{real_abs, Rational};
use crate::exact::vector::{duplicate_rows, partial_sum, real_rows, reals, sum, total};
use crate::exact::decimal::decimal_text;
use crate::football::payoff::{labels_fit, numbered_label, payoff_form};
use crate::football::penalty::{
    by_direction, default_rates, directed, payoff_to_probability, Direction, PenaltyAnalysis,
    PenaltyKick,
};
use crate::solver::game::GameError;
use crate::solver::nash::nash_outcome;
use vstd::prelude::*;
use vstd::string::StringExecFns;

verus! {

/// What one change of a success rate did.
#[derive(Debug, Clone)]
pub struct SensitivityResult {
    /// The success rate that was changed.
    pub parameter: String,
    /// Its value before.
    pub original_value: Rational,
    /// Its value after.
    pub new_value: Rational,
    /// The change of the kicker's equilibrium strategy.
    pub kicker_strategy_change: Vec<Rational>,
    /// The change of the goalkeeper's equilibrium strategy.
    pub goalkeeper_strategy_change: Vec<Rational>,
    /// The change of the goal probability at equilibrium.
    pub goal_probability_change: Rational,
}

/// What one change of a success rate did, in reals.
pub ghost struct Change {
    pub parameter: Seq<char>,
    pub original_value: real,
    pub new_value: real,
    pub kicker: Seq<real>,
    pub goalkeeper: Seq<real>,
    pub goal_probability: real,
}

impl SensitivityResult {
    /// This result in reals.
    pub open spec fn change(&self) -> Change {
        Change {
            parameter: self.parameter@,
            original_value: self.original_value@,
            new_value: self.new_value@,
            kicker: reals(self.kicker_strategy_change@),
            goalkeeper: reals(self.goalkeeper_strategy_change@),
            goal_probability: self.goal_probability_change@,
        }
    }
}

/// `x` brought into `[0, 1]`.
pub open spec fn clamped_unit(x: real) -> real {
    if x < 0real {
        0real
    } else if x > 1real {
        1real
    } else {
        x
    }
}

/// The matrix `m` with `delta` added to entry `(row, col)`, kept within
/// `[0, 1]`.
pub open spec fn varied(m: Seq<Seq<real>>, row: int, col: int, delta: real) -> Seq<Seq<real>> {
    m.update(row, m[row].update(col, clamped_unit(m[row][col] + delta)))
}

/// The entries of `after` less those of `before`, as far as both go.
pub open spec fn differences(before: Seq<real>, after: Seq<real>) -> Seq<real> {
    Seq::new(
        if before.len() <= after.len() {
            before.len()
        } else {
            after.len()
        },
        |i: int| after[i] - before[i],
    )
}

/// The name of the success rate at `(row, col)`.
pub open spec fn parameter_text(row: nat, col: nat) -> Seq<char> {
    "Success rate ["@ + decimal_text(row) + ","@ + decimal_text(col) + "]"@
}

/// The equilibrium of the kick with success rates `m`. A matrix that is
/// neither empty nor three by three counts as empty.
pub open spec fn kick_outcome(m: Seq<Seq<real>>) -> Result<(Seq<real>, Seq<real>, real), GameError> {
    if !labels_fit(m, 3, 3) {
        Err(GameError::EmptyMatrix)
    } else {
        nash_outcome(payoff_form(m))
    }
}

/// What adding `delta` to the success rate at `(row, col)` of `base` does
/// to the equilibrium, or why one of the two kicks has none.
pub open spec fn change_of(base: Seq<Seq<real>>, row: int, col: int, delta: real) -> Result<
    Change,
    GameError,
> {
    match kick_outcome(base) {
        Err(e) => Err(e),
        Ok(b) => match kick_outcome(varied(base, row, col, delta)) {
            Err(e) => Err(e),
            Ok(v) => Ok(
                Change {
                    parameter: parameter_text(row as nat, col as nat),
                    original_value: base[row][col],
                    new_value: clamped_unit(base[row][col] + delta),
                    kicker: differences(
                        probabilities(by_direction(b.0)),
                        probabilities(by_direction(v.0)),
                    ),
                    goalkeeper: differences(
                        probabilities(by_direction(b.1)),
                        probabilities(by_direction(v.1)),
                    ),
                    goal_probability: payoff_to_probability(v.2) - payoff_to_probability(b.2),
                },
            ),
        },
    }
}

/// The first of the first `c` cells, row by row, whose change has no
/// equilibrium.
pub open spec fn first_failure(base: Seq<Seq<real>>, delta: real, c: nat) -> Option<nat>
    decreases c,
{
    if c == 0 {
        None
    } else {
        match first_failure(base, delta, (c - 1) as nat) {
            Some(x) => Some(x),
            None => if change_of(base, (c - 1) / 3, (c - 1) % 3, delta) is Err {
                Some((c - 1) as nat)
            } else {
                None
            },
        }
    }
}

/// The magnitudes of the entries of `v`.
pub open spec fn magnitudes(v: Seq<real>) -> Seq<real> {
    Seq::new(v.len(), |i: int| real_abs(v[i]))
}

/// How far a change moved both strategies: the sum of the magnitudes of
/// all changes of probabilities.
pub open spec fn total_change(c: Change) -> real {
    total(magnitudes(c.kicker)) + total(magnitudes(c.goalkeeper))
}

/// Whether cell `a` comes before cell `b` by sensitivity: its total change
/// is larger, or the same and `a` is the earlier cell.
pub open spec fn precedes(values: Seq<real>, a: int, b: int) -> bool {
    values[a] > values[b] || (values[a] == values[b] && a < b)
}

/// How far the change at each of the nine cells, row by row, moved the
/// strategies.
pub open spec fn sensitivities(base: Seq<Seq<real>>, delta: real) -> Seq<real> {
    Seq::new(9, |c: int| total_change(change_of(base, c / 3, c % 3, delta)->Ok_0))
}

/// The number of a cell, counting row by row.
pub open spec fn cell_number(entry: (usize, usize, Rational)) -> int {
    3 * entry.0 + entry.1
}

/// Once a failure is found, it stays the first.
pub proof fn lemma_first_failure_stays(base: Seq<Seq<real>>, delta: real, c: nat, d: nat)
    requires
        c <= d,
        first_failure(base, delta, c) is Some,
    ensures
        first_failure(base, delta, d) == first_failure(base, delta, c),
    decreases d,
{
    if c < d {
        lemma_first_failure_stays(base, delta, c, (d - 1) as nat);
    }
}

/// Varies single success rates of a kick and records what the equilibrium
/// does.
#[derive(Debug)]
pub struct SensitivityAnalyzer {
    base_matrix: Vec<Vec<Rational>>,
}

impl SensitivityAnalyzer {
    /// The success rates that are varied.
    pub closed spec fn base(&self) -> Seq<Seq<real>> {
        real_rows(self.base_matrix@)
    }

    /// An analyzer of the given success rates.
    pub fn new(base_matrix: Vec<Vec<Rational>>) -> (r: SensitivityAnalyzer)
        ensures
            r.base() == real_rows(base_matrix@),
    {
        SensitivityAnalyzer { base_matrix }
    }

    /// An analyzer of the default success rates.
    pub fn with_default_data() -> (r: SensitivityAnalyzer)
        ensures
            r.base() == default_rates(),
    {
        let pk = PenaltyKick::with_default_data();
        SensitivityAnalyzer { base_matrix: duplicate_rows(pk.payoff_matrix().matrix().as_slice()) }
    }

    /// The probabilities of `after` less those of `before`.
    fn strategy_change(before: &Vec<(Direction, Rational)>, after: &Vec<(Direction, Rational)>) -> (r:
        Vec<Rational>)
        ensures
            reals(r@) == differences(
                probabilities(directed(before@)),
                probabilities(directed(after@)),
            ),
    {
        let mut out: Vec<Rational> = Vec::new();
        let mut i: usize = 0;
        while i < before.len() && i < after.len()
            invariant
                i <= before.len(),
                i <= after.len(),
                out.len() == i,
                forall|k: int|
                    0 <= k < i ==> (#[trigger] out@[k])@ == after@[k].1@ - before@[k].1@,
            decreases before.len() - i,
        {
            out.push(after[i].1.sub(&before[i].1));
            i += 1;
        }
        assert(reals(out@) =~= differences(
            probabilities(directed(before@)),
            probabilities(directed(after@)),
        ));
        out
    }

    /// The equilibrium of the kick with the given success rates.
    fn analysis_of(rates: Vec<Vec<Rational>>) -> (r: Result<PenaltyAnalysis, GameError>)
        ensures
            match kick_outcome(real_rows(rates@)) {
                Ok(e) => {
                    &&& r is Ok
                    &&& directed((r->Ok_0).kicker_strategy@) == by_direction(e.0)
                    &&& directed((r->Ok_0).goalkeeper_strategy@) == by_direction(e.1)
                    &&& (r->Ok_0).goal_probability@ == payoff_to_probability(e.2)
                    &&& real_rows(rates@).len() == 3
                    &&& forall|i: int| 0 <= i < 3 ==> (#[trigger] real_rows(rates@)[i]).len() == 3
                },
                Err(e) => r is Err && r->Err_0 == e,
            },
    {
        let ghost m = real_rows(rates@);
        let pk = match PenaltyKick::new(rates) {
            Ok(pk) => pk,
            Err(_) => {
                return Err(GameError::EmptyMatrix);
            },
        };
        let r = pk.analyze();
        proof {
            if r is Ok {
                if m.len() == 0 {
                    assert(payoff_form(m).len() == 0);
                }
            }
        }
        r
    }

    /// What adding `delta` to the success rate at `(row, col)` does to the
    /// equilibrium. The changed rate is kept within `[0, 1]`. Fails where
    /// the kick has no equilibrium before or after the change.
    pub fn analyze_single_change(&self, row: usize, col: usize, delta: &Rational) -> (r: Result<
        SensitivityResult,
        GameError,
    >)
        requires
            kick_outcome(self.base()) is Ok ==> row < 3 && col < 3,
        ensures
            match change_of(self.base(), row as int, col as int, delta@) {
                Ok(c) => r is Ok && (r->Ok_0).change() == c,
                Err(e) => r is Err && r->Err_0 == e,
            },
    {
        let ghost base = self.base();
        let base_analysis = match SensitivityAnalyzer::analysis_of(
            duplicate_rows(self.base_matrix.as_slice()),
        ) {
            Ok(a) => a,
            Err(e) => {
                return Err(e);
            },
        };
        proof {
            assert forall|i: int| 0 <= i < 3 implies (#[trigger] self.base_matrix@[i])@.len()
                == 3 by {
                assert(base[i].len() == 3);
            }
        }
        assert(base[row as int][col as int] == self.base_matrix@[row as int]@[col as int]@);
        let original_value = self.base_matrix[row][col].clone();
        let raised = original_value.add(delta);
        let new_value = if raised.is_negative() {
            Rational::zero()
        } else if raised.gt(&Rational::one()) {
            Rational::one()
        } else {
            raised
        };
        let mut modified: Vec<Vec<Rational>> = Vec::new();
        let mut i: usize = 0;
        while i < 3
            invariant
                i <= 3,
                row < 3,
                col < 3,
                base == real_rows(self.base_matrix@),
                self.base_matrix.len() == 3,
                forall|i: int| 0 <= i < 3 ==> (#[trigger] self.base_matrix@[i])@.len() == 3,
                new_value@ == clamped_unit(base[row as int][col as int] + delta@),
                modified.len() == i,
                forall|p: int| 0 <= p < i ==> (#[trigger] modified@[p])@.len() == 3,
                forall|p: int, q: int|
                    0 <= p < i && 0 <= q < 3 ==> (#[trigger] modified@[p]@[q])@ == varied(
                        base,
                        row as int,
                        col as int,
                        delta@,
                    )[p][q],
            decreases 3 - i,
        {
            let mut line: Vec<Rational> = Vec::new();
            let mut j: usize = 0;
            while j < 3
                invariant
                    j <= 3,
                    i < 3,
                    row < 3,
                    col < 3,
                    base == real_rows(self.base_matrix@),
                    self.base_matrix.len() == 3,
                    forall|i: int| 0 <= i < 3 ==> (#[trigger] self.base_matrix@[i])@.len() == 3,
                    new_value@ == clamped_unit(base[row as int][col as int] + delta@),
                    line.len() == j,
                    forall|q: int|
                        0 <= q < j ==> (#[trigger] line@[q])@ == varied(
                            base,
                            row as int,
                            col as int,
                            delta@,
                        )[i as int][q],
                decreases 3 - j,
            {
                assert(base[i as int][j as int] == self.base_matrix@[i as int]@[j as int]@);
                assert(base[i as int].len() == 3);
                if i == row && j == col {
                    line.push(new_value.clone());
                } else {
                    line.push(self.base_matrix[i][j].clone());
                }
                j += 1;
            }
            modified.push(line);
            i += 1;
        }
        proof {
            let want = varied(base, row as int, col as int, delta@);
            assert(base[row as int].len() == 3);
            assert forall|p: int| 0 <= p < 3 implies (#[trigger] want[p]).len() == 3 by {
                assert(base[p].len() == 3);
            }
            assert(real_rows(modified@) =~~= want);
        }
        let modified_analysis = match SensitivityAnalyzer::analysis_of(modified) {
            Ok(a) => a,
            Err(e) => {
                return Err(e);
            },
        };
        let kicker_strategy_change = SensitivityAnalyzer::strategy_change(
            &base_analysis.kicker_strategy,
            &modified_analysis.kicker_strategy,
        );
        let goalkeeper_strategy_change = SensitivityAnalyzer::strategy_change(
            &base_analysis.goalkeeper_strategy,
            &modified_analysis.goalkeeper_strategy,
        );
        let goal_probability_change = modified_analysis.goal_probability.sub(
            &base_analysis.goal_probability,
        );
        let parameter = numbered_label("Success rate [", row).concat(",");
        let tail = numbered_label("", col);
        let parameter = parameter.concat(tail.as_str()).concat("]");
        proof {
            reveal_strlit("");
            assert(""@ + decimal_text(col as nat) =~= decimal_text(col as nat));
            assert(parameter@ =~= parameter_text(row as nat, col as nat));
        }
        Ok(
            SensitivityResult {
                parameter,
                original_value,
                new_value,
                kicker_strategy_change,
                goalkeeper_strategy_change,
                goal_probability_change,
            },
        )
    }

    /// What adding `delta` does at each of the nine success rates, row by
    /// row. Fails as the first change that fails.
    pub fn full_analysis(&self, delta: &Rational) -> (r: Result<Vec<SensitivityResult>, GameError>)
        ensures
            match first_failure(self.base(), delta@, 9) {
                Some(c) => r is Err && change_of(self.base(), c as int / 3, c as int % 3, delta@)
                    == Err::<Change, GameError>(r->Err_0),
                None => {
                    &&& r is Ok
                    &&& (r->Ok_0).len() == 9
                    &&& forall|c: int|
                        0 <= c < 9 ==> change_of(self.base(), c / 3, c % 3, delta@) == Ok::<
                            Change,
                            GameError,
                        >((#[trigger] (r->Ok_0)@[c]).change())
                },
            },
    {
        let ghost base = self.base();
        let mut results: Vec<SensitivityResult> = Vec::new();
        let mut c: usize = 0;
        while c < 9
            invariant
                c <= 9,
                base == self.base(),
                first_failure(base, delta@, c as nat) is None,
                results.len() == c,
                forall|x: int|
                    0 <= x < c ==> change_of(base, x / 3, x % 3, delta@) == Ok::<Change, GameError>(
                        (#[trigger] results@[x]).change(),
                    ),
            decreases 9 - c,
        {
            match self.analyze_single_change(c / 3, c % 3, delta) {
                Ok(result) => {
                    results.push(result);
                },
                Err(e) => {
                    proof {
                        assert(first_failure(base, delta@, (c + 1) as nat) == Some(c as nat));
                        lemma_first_failure_stays(base, delta@, (c + 1) as nat, 9);
                    }
                    return Err(e);
                },
            }
            c += 1;
        }
        Ok(results)
    }

    /// The sum of the magnitudes of the entries of `v`.
    fn magnitude_sum(v: &Vec<Rational>) -> (r: Rational)
        ensures
            r@ == total(magnitudes(reals(v@))),
    {
        let ghost m = magnitudes(reals(v@));
        let mut acc = Rational::zero();
        let mut i: usize = 0;
        while i < v.len()
            invariant
                i <= v.len(),
                m == magnitudes(reals(v@)),
                acc@ == partial_sum(m, i as nat),
            decreases v.len() - i,
        {
            assert(m[i as int] == real_abs(v@[i as int]@));
            acc = acc.add(&v[i].abs());
            i += 1;
        }
        acc
    }

    /// The nine cells in the order of `precedes`: the most sensitive first,
    /// of equally sensitive cells the earlier first.
    fn ranking(values: &Vec<Rational>) -> (order: Vec<usize>)
        requires
            values.len() == 9,
        ensures
            order.len() == 9,
            forall|k: int| 0 <= k < 9 ==> (#[trigger] order@[k]) < 9,
            forall|k: int, l: int|
                0 <= k < l < 9 ==> precedes(reals(values@), order@[k] as int, order@[l] as int),
    {
        let ghost v = reals(values@);
        let mut order: Vec<usize> = Vec::new();
        let mut i: usize = 0;
        while i < 9
            invariant
                i <= 9,
                values.len() == 9,
                v == reals(values@),
                order.len() == i,
                forall|k: int| 0 <= k < i ==> (#[trigger] order@[k]) < i,
                forall|k: int, l: int|
                    0 <= k < l < i ==> precedes(v, order@[k] as int, order@[l] as int),
            decreases 9 - i,
        {
            let mut pos: usize = 0;
            while pos < order.len() && values[order[pos]].ge(&values[i])
                invariant
                    pos <= order.len(),
                    i < 9,
                    values.len() == 9,
                    v == reals(values@),
                    order.len() == i,
                    forall|k: int| 0 <= k < i ==> (#[trigger] order@[k]) < i,
                    forall|k: int| 0 <= k < pos ==> precedes(v, (#[trigger] order@[k]) as int, i as int),
                decreases order.len() - pos,
            {
                assert(v[order@[pos as int] as int] == values@[order@[pos as int] as int]@);
                assert(v[i as int] == values@[i as int]@);
                pos += 1;
            }
            let ghost before = order@;
            proof {
                if pos < order.len() {
                    assert(v[order@[pos as int] as int] == values@[order@[pos as int] as int]@);
                    assert(v[i as int] == values@[i as int]@);
                }
            }
            order.insert(pos, i);
            proof {
                let now = order@;
                assert forall|k: int| 0 <= k < i + 1 implies (#[trigger] now[k]) < i + 1 by {
                    if k < pos {
                        assert(now[k] == before[k]);
                    } else if k > pos {
                        assert(now[k] == before[k - 1]);
                    }
                }
                assert forall|k: int, l: int| 0 <= k < l < i + 1 implies precedes(
                    v,
                    now[k] as int,
                    now[l] as int,
                ) by {
                    if l < pos {
                        assert(now[k] == before[k] && now[l] == before[l]);
                    } else if l == pos {
                        assert(now[k] == before[k]);
                    } else if k < pos {
                        assert(now[k] == before[k] && now[l] == before[l - 1]);
                    } else if k == pos {
                        assert(now[l] == before[l - 1]);
                        assert(before[pos as int] < i);
                        if l - 1 > pos {
                            assert(precedes(v, before[pos as int] as int, before[l - 1] as int));
                        }
                    } else {
                        assert(now[k] == before[k - 1] && now[l] == before[l - 1]);
                    }
                }
            }
            i += 1;
        }
        order
    }

    /// The nine success rates with how far a change by `delta` moves the
    /// equilibrium strategies, the most sensitive first; of equally
    /// sensitive ones the earlier, row by row, comes first. Fails as
    /// `full_analysis` does.
    pub fn find_critical_parameters(&self, delta: &Rational) -> (r: Result<
        Vec<(usize, usize, Rational)>,
        GameError,
    >)
        ensures
            match first_failure(self.base(), delta@, 9) {
                Some(c) => r is Err && change_of(self.base(), c as int / 3, c as int % 3, delta@)
                    == Err::<Change, GameError>(r->Err_0),
                None => {
                    &&& r is Ok
                    &&& (r->Ok_0).len() == 9
                    &&& forall|k: int|
                        0 <= k < 9 ==> {
                            let entry = #[trigger] (r->Ok_0)@[k];
                            &&& entry.0 < 3
                            &&& entry.1 < 3
                            &&& entry.2@ == sensitivities(self.base(), delta@)[cell_number(entry)]
                        }
                    &&& forall|k: int, l: int|
                        0 <= k < l < 9 ==> precedes(
                            sensitivities(self.base(), delta@),
                            cell_number(#[trigger] (r->Ok_0)@[k]),
                            cell_number(#[trigger] (r->Ok_0)@[l]),
                        )
                },
            },
    {
        let ghost base = self.base();
        let ghost want = sensitivities(base, delta@);
        let results = match self.full_analysis(delta) {
            Ok(r) => r,
            Err(e) => {
                return Err(e);
            },
        };
        let mut values: Vec<Rational> = Vec::new();
        let mut c: usize = 0;
        while c < 9
            invariant
                c <= 9,
                base == self.base(),
                want == sensitivities(base, delta@),
                results.len() == 9,
                forall|x: int|
                    0 <= x < 9 ==> change_of(base, x / 3, x % 3, delta@) == Ok::<Change, GameError>(
                        (#[trigger] results@[x]).change(),
                    ),
                values.len() == c,
                forall|x: int| 0 <= x < c ==> (#[trigger] values@[x])@ == want[x],
            decreases 9 - c,
        {
            let kicker = SensitivityAnalyzer::magnitude_sum(&results[c].kicker_strategy_change);
            let keeper = SensitivityAnalyzer::magnitude_sum(&results[c].goalkeeper_strategy_change);
            proof {
                assert(change_of(base, c as int / 3, c as int % 3, delta@) == Ok::<
                    Change,
                    GameError,
                >(results@[c as int].change()));
            }
            values.push(kicker.add(&keeper));
            c += 1;
        }
        assert(reals(values@) =~= want);
        let order = SensitivityAnalyzer::ranking(&values);
        let mut critical: Vec<(usize, usize, Rational)> = Vec::new();
        let mut k: usize = 0;
        while k < 9
            invariant
                k <= 9,
                values.len() == 9,
                want == reals(values@),
                order.len() == 9,
                forall|x: int| 0 <= x < 9 ==> (#[trigger] order@[x]) < 9,
                critical.len() == k,
                forall|x: int|
                    0 <= x < k ==> {
                        let entry = #[trigger] critical@[x];
                        &&& entry.0 < 3
                        &&& entry.1 < 3
                        &&& cell_number(entry) == order@[x]
                        &&& entry.2@ == want[cell_number(entry)]
                    },
            decreases 9 - k,
        {
            let cell = order[k];
            assert(want[cell as int] == values@[cell as int]@);
            critical.push((cell / 3, cell % 3, values[cell].clone()));
            k += 1;
        }
        proof {
            assert forall|k: int, l: int| 0 <= k < l < 9 implies precedes(
                want,
                cell_number(#[trigger] critical@[k]),
                cell_number(#[trigger] critical@[l]),
            ) by {
                assert(cell_number(critical@[k]) == order@[k]);
                assert(cell_number(critical@[l]) == order@[l]);
                assert(precedes(reals(values@), order@[k] as int, order@[l] as int));
            }
        }
        Ok(critical)
    }
}

} // verus!
