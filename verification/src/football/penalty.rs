//! The penalty kick: directions, the analysis of a success-rate matrix, and
//! the equilibrium strategies of kicker and goalkeeper.

use super::payoff::{labels_fit, payoff_form, PayoffError, PayoffMatrix};
use crate::exact::decimal::{fixed, fixed_text};
use crate::exact::rational::{quotient, Rational};
use crate::visualization::layout::joined;
use crate::exact::vector::{partial_sum, real_rows, reals, total};
use crate::solver::game::{GameError, GameSolver};
use crate::solver::nash::nash_outcome;
use vstd::prelude::*;
use vstd::string::StringExecFns;

verus! {

/// Where the kicker shoots, or where the goalkeeper dives.
#[derive(Debug, Clone, Copy, PartialEq, Eq, Structural, Hash)]
pub enum Direction {
    Left,
    Center,
    Right,
}

/// The directions in the order of their indices.
pub open spec fn all_directions() -> Seq<Direction> {
    seq![Direction::Left, Direction::Center, Direction::Right]
}

impl Direction {
    /// The index of this direction in a matrix: its place in
    /// `all_directions()`.
    pub open spec fn spec_index(self) -> nat {
        match self {
            Direction::Left => 0,
            Direction::Center => 1,
            Direction::Right => 2,
        }
    }

    /// The name of the direction as text.
    pub open spec fn spec_name(self) -> Seq<char> {
        match self {
            Direction::Left => "Left"@,
            Direction::Center => "Center"@,
            Direction::Right => "Right"@,
        }
    }

    /// All directions, in the order of their indices.
    pub fn all() -> (r: &'static [Direction])
        ensures
            r@ == all_directions(),
    {
        let r: &'static [Direction] = &[Direction::Left, Direction::Center, Direction::Right];
        assert(r@ =~= all_directions());
        r
    }

    /// The name of the direction.
    pub fn name(&self) -> (r: &'static str)
        ensures
            r@ == self.spec_name(),
    {
        match self {
            Direction::Left => "Left",
            Direction::Center => "Center",
            Direction::Right => "Right",
        }
    }

    /// The index of the direction in a matrix.
    pub fn index(&self) -> (r: usize)
        ensures
            r == self.spec_index(),
            r < 3,
            all_directions()[r as int] == *self,
    {
        match self {
            Direction::Left => 0,
            Direction::Center => 1,
            Direction::Right => 2,
        }
    }

    /// The direction with the given index; none for an index above 2.
    pub fn from_index(index: usize) -> (r: Option<Direction>)
        ensures
            r is Some <==> index < 3,
            r is Some ==> (r->Some_0).spec_index() == index && r->Some_0 == all_directions()[index as int],
    {
        match index {
            0 => Some(Direction::Left),
            1 => Some(Direction::Center),
            2 => Some(Direction::Right),
            _ => None,
        }
    }
}

/// The reals that a strategy over directions denotes.
pub open spec fn directed(v: Seq<(Direction, Rational)>) -> Seq<(Direction, real)> {
    Seq::new(v.len(), |i: int| (v[i].0, v[i].1@))
}

/// The strategy `p` with the direction of each index, as far as there are
/// directions.
pub open spec fn by_direction(p: Seq<real>) -> Seq<(Direction, real)> {
    Seq::new(
        if p.len() <= 3 {
            p.len()
        } else {
            3
        },
        |i: int| (all_directions()[i], p[i]),
    )
}

/// The probability that goes with the payoff `v`: `(v + 1) / 2`.
pub open spec fn payoff_to_probability(v: real) -> real {
    (v + 1real) / 2real
}

/// The chance of a goal when kicker and goalkeeper mix by `p` and `q` over
/// the success rates `a`: the sum over all `i`, `j` of `p[i] * q[j] * a[i][j]`.
pub open spec fn goal_chance(a: Seq<Seq<real>>, p: Seq<real>, q: Seq<real>) -> real {
    total(Seq::new(p.len(), |i: int| total(Seq::new(q.len(), |j: int| p[i] * q[j] * a[i][j]))))
}

/// The success rates observed by Palacios-Huerta (2003): rows are the
/// kicker's directions, columns the goalkeeper's, entries in hundredths.
pub open spec fn default_rates() -> Seq<Seq<real>> {
    seq![
        seq![quotient(58, 100), quotient(93, 100), quotient(95, 100)],
        seq![quotient(83, 100), quotient(44, 100), quotient(83, 100)],
        seq![quotient(93, 100), quotient(90, 100), quotient(60, 100)],
    ]
}

/// The probability above which a direction counts as played: one in a
/// thousand.
pub open spec fn display_floor() -> real {
    1real / 1000real
}

/// The first `n` entries of a strategy that are played, in their order.
pub open spec fn played(s: Seq<(Direction, real)>, n: nat) -> Seq<(Direction, real)>
    decreases n,
{
    if n == 0 {
        Seq::empty()
    } else {
        let before = played(s, (n - 1) as nat);
        if s[n - 1].1 > display_floor() {
            before.push(s[n - 1])
        } else {
            before
        }
    }
}

/// A direction with its probability in percent, one decimal: `Left: 34.1%`.
pub open spec fn share_text(entry: (Direction, real)) -> Seq<char> {
    entry.0.spec_name() + ": "@ + fixed_text(entry.1 * 100real, 1) + "%"@
}

/// The strategy `s` as text: the directions that are played, each with its
/// probability in percent, with commas between them.
pub open spec fn strategy_text(s: Seq<(Direction, real)>) -> Seq<char> {
    let shown = played(s, s.len());
    joined(Seq::new(shown.len(), |i: int| share_text(shown[i])), shown.len(), ", "@)
}

/// What the analysis of a penalty kick found.
#[derive(Debug, Clone)]
pub struct PenaltyAnalysis {
    /// The kicker's equilibrium strategy.
    pub kicker_strategy: Vec<(Direction, Rational)>,
    /// The goalkeeper's equilibrium strategy.
    pub goalkeeper_strategy: Vec<(Direction, Rational)>,
    /// The chance of a goal at equilibrium.
    pub goal_probability: Rational,
    /// The success rates analysed.
    pub payoff_matrix: PayoffMatrix,
}

impl PenaltyAnalysis {
    /// The entries of `strategy` that are played.
    fn played_of(strategy: &Vec<(Direction, Rational)>) -> (r: Vec<(Direction, Rational)>)
        ensures
            directed(r@) == played(directed(strategy@), strategy.len() as nat),
    {
        let ghost s = directed(strategy@);
        let floor = Rational::one().div(&Rational::from_int(1000));
        let mut out: Vec<(Direction, Rational)> = Vec::new();
        let mut i: usize = 0;
        while i < strategy.len()
            invariant
                i <= strategy.len(),
                s == directed(strategy@),
                floor@ == display_floor(),
                directed(out@) == played(s, i as nat),
            decreases strategy.len() - i,
        {
            assert(s[i as int] == (strategy@[i as int].0, strategy@[i as int].1@));
            let ghost before = out@;
            if strategy[i].1.gt(&floor) {
                out.push((strategy[i].0, strategy[i].1.clone()));
                assert(directed(out@) =~= directed(before).push(s[i as int]));
            }
            i += 1;
        }
        out
    }

    /// The strategy as text.
    fn strategy_string(strategy: &Vec<(Direction, Rational)>) -> (r: String)
        ensures
            r@ == strategy_text(directed(strategy@)),
    {
        let shown = PenaltyAnalysis::played_of(strategy);
        let ghost s = directed(shown@);
        let ghost parts = Seq::new(s.len(), |i: int| share_text(s[i]));
        let hundred = Rational::from_int(100);
        let mut out = String::new();
        let mut i: usize = 0;
        assert(out@ =~= joined(parts, 0, ", "@));
        while i < shown.len()
            invariant
                i <= shown.len(),
                s == directed(shown@),
                parts == Seq::new(s.len(), |i: int| share_text(s[i])),
                hundred@ == 100real,
                out@ == joined(parts, i as nat, ", "@),
            decreases shown.len() - i,
        {
            assert(s[i as int] == (shown@[i as int].0, shown@[i as int].1@));
            let mut part = String::from_str(shown[i].0.name());
            part.append(": ");
            part.append(fixed(&shown[i].1.mul(&hundred), 1).as_str());
            part.append("%");
            assert(part@ == parts[i as int]);
            if i > 0 {
                out.append(", ");
            } else {
                assert(out@ + part@ =~= part@);
            }
            out.append(part.as_str());
            i += 1;
        }
        out
    }

    /// The kicker's strategy as text: the directions played with a
    /// probability above one in a thousand, each with its probability in
    /// percent.
    pub fn kicker_strategy_string(&self) -> (r: String)
        ensures
            r@ == strategy_text(directed(self.kicker_strategy@)),
    {
        PenaltyAnalysis::strategy_string(&self.kicker_strategy)
    }

    /// The goalkeeper's strategy as text: the directions played with a
    /// probability above one in a thousand, each with its probability in
    /// percent.
    pub fn goalkeeper_strategy_string(&self) -> (r: String)
        ensures
            r@ == strategy_text(directed(self.goalkeeper_strategy@)),
    {
        PenaltyAnalysis::strategy_string(&self.goalkeeper_strategy)
    }
}

/// A penalty kick, given by the chance of a goal for every pair of
/// directions.
#[derive(Debug)]
pub struct PenaltyKick {
    payoff_matrix: PayoffMatrix,
}

impl PenaltyKick {
    /// The success rates are three by three, or there are none.
    #[verifier::type_invariant]
    spec fn well_formed(&self) -> bool {
        labels_fit(self.payoff_matrix.values(), 3, 3)
    }

    /// The success rates as rows of reals.
    pub closed spec fn rates(&self) -> Seq<Seq<real>> {
        self.payoff_matrix.values()
    }

    /// A penalty kick with the given success rates: rows are the kicker's
    /// directions, columns the goalkeeper's. Fails exactly when the matrix is
    /// neither empty nor three by three.
    pub fn new(success_rates: Vec<Vec<Rational>>) -> (r: Result<PenaltyKick, PayoffError>)
        ensures
            r is Ok <==> labels_fit(real_rows(success_rates@), 3, 3),
            r is Ok ==> (r->Ok_0).rates() == real_rows(success_rates@),
            r is Err ==> r->Err_0 is DimensionMismatch,
    {
        let mut row_labels: Vec<String> = Vec::new();
        row_labels.push(String::from_str("Kick Left"));
        row_labels.push(String::from_str("Kick Center"));
        row_labels.push(String::from_str("Kick Right"));
        let mut col_labels: Vec<String> = Vec::new();
        col_labels.push(String::from_str("GK Left"));
        col_labels.push(String::from_str("GK Center"));
        col_labels.push(String::from_str("GK Right"));
        match PayoffMatrix::new(success_rates, row_labels, col_labels) {
            Ok(payoff_matrix) => Ok(PenaltyKick { payoff_matrix }),
            Err(e) => Err(e),
        }
    }

    /// A row of three rates given in hundredths.
    fn hundredths(a: i64, b: i64, c: i64) -> (r: Vec<Rational>)
        ensures
            reals(r@) == seq![quotient(a as int, 100), quotient(b as int, 100), quotient(c as int, 100)],
    {
        let hundred = Rational::from_int(100);
        let mut row: Vec<Rational> = Vec::new();
        row.push(Rational::from_int(a).div(&hundred));
        row.push(Rational::from_int(b).div(&hundred));
        row.push(Rational::from_int(c).div(&hundred));
        assert(reals(row@) =~= seq![
            quotient(a as int, 100),
            quotient(b as int, 100),
            quotient(c as int, 100),
        ]);
        row
    }

    /// The penalty kick with the success rates of `default_rates()`.
    pub fn with_default_data() -> (r: PenaltyKick)
        ensures
            r.rates() == default_rates(),
    {
        let mut success_rates: Vec<Vec<Rational>> = Vec::new();
        success_rates.push(PenaltyKick::hundredths(58, 93, 95));
        success_rates.push(PenaltyKick::hundredths(83, 44, 83));
        success_rates.push(PenaltyKick::hundredths(93, 90, 60));
        proof {
            let m = real_rows(success_rates@);
            assert(m =~= default_rates());
            assert(m[0].len() == 3 && m[1].len() == 3 && m[2].len() == 3);
        }
        match PenaltyKick::new(success_rates) {
            Ok(pk) => pk,
            Err(_) => vstd::pervasive::unreached(),
        }
    }

    /// Pairs the first three probabilities of `strategy` with their
    /// directions.
    fn direct(strategy: &[Rational]) -> (r: Vec<(Direction, Rational)>)
        ensures
            directed(r@) == by_direction(reals(strategy@)),
    {
        let mut out: Vec<(Direction, Rational)> = Vec::new();
        let mut i: usize = 0;
        while i < strategy.len() && i < 3
            invariant
                i <= strategy.len(),
                i <= 3,
                out.len() == i,
                forall|k: int|
                    0 <= k < i ==> (#[trigger] out@[k]).0 == all_directions()[k] && out@[k].1@
                        == strategy@[k]@,
            decreases 3 - i,
        {
            match Direction::from_index(i) {
                Some(d) => {
                    out.push((d, strategy[i].clone()));
                },
                None => {},
            }
            i += 1;
        }
        assert(directed(out@) =~= by_direction(reals(strategy@)));
        out
    }

    /// The equilibrium of the kick: success rates become payoffs `2p - 1`,
    /// the game is solved, and its value `v` becomes the goal probability
    /// `(v + 1) / 2`.
    pub fn analyze(&self) -> (r: Result<PenaltyAnalysis, GameError>)
        ensures
            match nash_outcome(payoff_form(self.rates())) {
                Ok(e) => {
                    &&& r is Ok
                    &&& directed((r->Ok_0).kicker_strategy@) == by_direction(e.0)
                    &&& directed((r->Ok_0).goalkeeper_strategy@) == by_direction(e.1)
                    &&& (r->Ok_0).goal_probability@ == payoff_to_probability(e.2)
                    &&& (r->Ok_0).payoff_matrix.values() == self.rates()
                    &&& (r->Ok_0).kicker_strategy.len() == 3
                    &&& (r->Ok_0).goalkeeper_strategy.len() == 3
                },
                Err(e) => r is Err && r->Err_0 == e,
            },
    {
        proof {
            use_type_invariant(self);
        }
        let payoff_values = self.payoff_matrix.to_expected_payoff();
        let solver = match GameSolver::new(payoff_values) {
            Ok(s) => s,
            Err(e) => {
                return Err(e);
            },
        };
        let solution = match solver.solve() {
            Ok(s) => s,
            Err(e) => {
                return Err(e);
            },
        };
        let kicker_strategy = PenaltyKick::direct(solution.row_strategy.as_slice());
        let goalkeeper_strategy = PenaltyKick::direct(solution.col_strategy.as_slice());
        proof {
            let m = payoff_form(self.rates());
            assert(m.len() == 3 && m[0].len() == 3);
            assert(directed(kicker_strategy@).len() == 3);
            assert(directed(goalkeeper_strategy@).len() == 3);
        }
        let goal_probability = solution.game_value.add(&Rational::one()).div(&Rational::from_int(2));
        Ok(
            PenaltyAnalysis {
                kicker_strategy,
                goalkeeper_strategy,
                goal_probability,
                payoff_matrix: self.payoff_matrix.clone(),
            },
        )
    }

    /// The success rates with their labels. They are three by three, or
    /// there are none.
    pub fn payoff_matrix(&self) -> (r: &PayoffMatrix)
        ensures
            r.values() == self.rates(),
            labels_fit(self.rates(), 3, 3),
    {
        proof {
            use_type_invariant(self);
        }
        &self.payoff_matrix
    }

    /// The chance of a goal when kicker and goalkeeper mix by the given
    /// strategies.
    pub fn expected_goal_probability(
        &self,
        kicker_strategy: &[Rational],
        goalkeeper_strategy: &[Rational],
    ) -> (r: Rational)
        requires
            kicker_strategy.len() <= self.rates().len(),
            forall|i: int|
                0 <= i < kicker_strategy.len() ==> goalkeeper_strategy.len() <= (
                #[trigger] self.rates()[i]).len(),
        ensures
            r@ == goal_chance(self.rates(), reals(kicker_strategy@), reals(goalkeeper_strategy@)),
    {
        let matrix = self.payoff_matrix.matrix();
        let ghost a = self.rates();
        let ghost p = reals(kicker_strategy@);
        let ghost q = reals(goalkeeper_strategy@);
        let ghost outer = Seq::new(
            p.len(),
            |i: int| total(Seq::new(q.len(), |j: int| p[i] * q[j] * a[i][j])),
        );
        let mut prob = Rational::zero();
        let mut i: usize = 0;
        while i < kicker_strategy.len()
            invariant
                i <= kicker_strategy.len(),
                a == real_rows(matrix@),
                a == self.rates(),
                kicker_strategy.len() <= a.len(),
                forall|i: int|
                    0 <= i < kicker_strategy.len() ==> goalkeeper_strategy.len() <= (
                    #[trigger] a[i]).len(),
                p == reals(kicker_strategy@),
                q == reals(goalkeeper_strategy@),
                outer == Seq::new(
                    p.len(),
                    |i: int| total(Seq::new(q.len(), |j: int| p[i] * q[j] * a[i][j])),
                ),
                prob@ == partial_sum(outer, i as nat),
            decreases kicker_strategy.len() - i,
        {
            let ghost inner = Seq::new(q.len(), |j: int| p[i as int] * q[j] * a[i as int][j]);
            assert(a[i as int].len() == matrix@[i as int]@.len());
            let mut line = Rational::zero();
            let mut j: usize = 0;
            while j < goalkeeper_strategy.len()
                invariant
                    j <= goalkeeper_strategy.len(),
                    i < kicker_strategy.len(),
                    i < matrix.len(),
                    goalkeeper_strategy.len() <= matrix@[i as int]@.len(),
                    a == real_rows(matrix@),
                    p == reals(kicker_strategy@),
                    q == reals(goalkeeper_strategy@),
                    inner == Seq::new(q.len(), |j: int| p[i as int] * q[j] * a[i as int][j]),
                    line@ == partial_sum(inner, j as nat),
                decreases goalkeeper_strategy.len() - j,
            {
                assert(a[i as int][j as int] == matrix@[i as int]@[j as int]@);
                assert(p[i as int] == kicker_strategy@[i as int]@);
                assert(q[j as int] == goalkeeper_strategy@[j as int]@);
                assert(inner[j as int] == p[i as int] * q[j as int] * a[i as int][j as int]);
                let term = kicker_strategy[i].mul(&goalkeeper_strategy[j]).mul(&matrix[i][j]);
                line = line.add(&term);
                j += 1;
            }
            assert(outer[i as int] == total(inner));
            prob = prob.add(&line);
            i += 1;
        }
        prob
    }
}

} // verus!
