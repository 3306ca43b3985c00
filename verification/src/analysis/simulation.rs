//! Simulated penalty kicks: a seeded generator draws the directions of
//! kicker and goalkeeper from their strategies, and the outcome from the
//! success rate of the pair.

use crate::exact::rational::{quotient, Rational};
use crate::exact::vector::{duplicate_row, partial_sum, real_rows, reals};
use crate::football::payoff::{labels_fit, PayoffError};
use crate::football::payoff::payoff_form;
use crate::football::penalty::{all_directions, by_direction, directed, Direction, PenaltyKick};
use crate::solver::game::GameError;
use crate::solver::nash::nash_outcome;
use vstd::prelude::*;

verus! {

/// One simulated penalty kick.
#[derive(Debug, Clone, Copy)]
pub struct SimulatedKick {
    pub kick_direction: Direction,
    pub gk_direction: Direction,
    pub is_goal: bool,
}

/// The outcome of a run of simulated kicks.
#[derive(Debug, Clone)]
pub struct SimulationResult {
    pub kicks: Vec<SimulatedKick>,
    pub goals_scored: u32,
    pub total_kicks: u32,
    pub kicker_strategy: Vec<Rational>,
    pub goalkeeper_strategy: Vec<Rational>,
}

/// The state that follows `state` in the generator: a linear congruential
/// step modulo 2^64.
pub open spec fn next_state(state: u64) -> u64 {
    vstd::wrapping::u64_specs::wrapping_add(
        vstd::wrapping::u64_specs::wrapping_mul(state, 6364136223846793005),
        1,
    )
}

/// The number in `[0, 1)` that a state stands for: its upper 53 bits as a
/// fraction of 2^53.
pub open spec fn unit_of(state: u64) -> real {
    quotient(state as int / 2048, 0x20_0000_0000_0000)
}

/// The first of the first `n` indices at which the running sum of `probs`
/// exceeds `r`.
pub open spec fn first_reached(r: real, probs: Seq<real>, n: nat) -> Option<nat>
    decreases n,
{
    if n == 0 {
        None
    } else {
        match first_reached(r, probs, (n - 1) as nat) {
            Some(i) => Some(i),
            None => if r < partial_sum(probs, n) {
                Some((n - 1) as nat)
            } else {
                None
            },
        }
    }
}

/// The direction with the given index, or `fallback` where there is none.
pub open spec fn direction_or(index: int, fallback: Direction) -> Direction {
    if 0 <= index < 3 {
        all_directions()[index]
    } else {
        fallback
    }
}

/// The direction drawn from `probs` by the number `r`: that of the first
/// index at which the running sum exceeds `r`, the last index where none
/// does.
pub open spec fn sampled(r: real, probs: Seq<real>) -> Direction {
    match first_reached(r, probs, probs.len()) {
        Some(i) => direction_or(i as int, Direction::Center),
        None => direction_or(probs.len() - 1, Direction::Right),
    }
}

/// The kick simulated from `state`, and the state after it. Three numbers
/// are drawn: for the kicker's direction, for the goalkeeper's, and for the
/// outcome, which is a goal where the number is below the success rate.
#[verifier::opaque]
pub open spec fn kick_from(state: u64, rates: Seq<Seq<real>>, p: Seq<real>, q: Seq<real>) -> (
    SimulatedKick,
    u64,
) {
    let s1 = next_state(state);
    let s2 = next_state(s1);
    let s3 = next_state(s2);
    let kick_direction = sampled(unit_of(s1), p);
    let gk_direction = sampled(unit_of(s2), q);
    let rate = rates[kick_direction.spec_index() as int][gk_direction.spec_index() as int];
    (SimulatedKick { kick_direction, gk_direction, is_goal: unit_of(s3) < rate }, s3)
}

/// The state of the generator after `n` kicks.
pub open spec fn state_after(
    state: u64,
    rates: Seq<Seq<real>>,
    p: Seq<real>,
    q: Seq<real>,
    n: nat,
) -> u64
    decreases n,
{
    if n == 0 {
        state
    } else {
        kick_from(state_after(state, rates, p, q, (n - 1) as nat), rates, p, q).1
    }
}

/// The first `n` kicks simulated from `state`.
pub open spec fn kicks_from(
    state: u64,
    rates: Seq<Seq<real>>,
    p: Seq<real>,
    q: Seq<real>,
    n: nat,
) -> Seq<SimulatedKick>
    decreases n,
{
    if n == 0 {
        Seq::empty()
    } else {
        kicks_from(state, rates, p, q, (n - 1) as nat).push(
            kick_from(state_after(state, rates, p, q, (n - 1) as nat), rates, p, q).0,
        )
    }
}

/// The goals among the first `n` kicks.
pub open spec fn goals_among(kicks: Seq<SimulatedKick>, n: nat) -> nat
    decreases n,
{
    if n == 0 {
        0
    } else {
        goals_among(kicks, (n - 1) as nat) + if kicks[n - 1].is_goal {
            1nat
        } else {
            0nat
        }
    }
}

/// The kicks among the first `n` with the given directions.
pub open spec fn attempts_at(kicks: Seq<SimulatedKick>, kick: Direction, gk: Direction, n: nat) -> nat
    decreases n,
{
    if n == 0 {
        0
    } else {
        attempts_at(kicks, kick, gk, (n - 1) as nat) + if kicks[n - 1].kick_direction == kick
            && kicks[n - 1].gk_direction == gk {
            1nat
        } else {
            0nat
        }
    }
}

/// The goals among the first `n` kicks with the given directions.
pub open spec fn goals_at(kicks: Seq<SimulatedKick>, kick: Direction, gk: Direction, n: nat) -> nat
    decreases n,
{
    if n == 0 {
        0
    } else {
        goals_at(kicks, kick, gk, (n - 1) as nat) + if kicks[n - 1].kick_direction == kick
            && kicks[n - 1].gk_direction == gk && kicks[n - 1].is_goal {
            1nat
        } else {
            0nat
        }
    }
}

/// The statistics of the first `c` pairs of directions, row by row: for
/// every pair that was played, the pair, its goals and its attempts.
pub open spec fn stats_of(kicks: Seq<SimulatedKick>, c: nat) -> Seq<((Direction, Direction), nat, nat)>
    decreases c,
{
    if c == 0 {
        Seq::empty()
    } else {
        let before = stats_of(kicks, (c - 1) as nat);
        let kick = all_directions()[(c - 1) / 3];
        let gk = all_directions()[(c - 1) % 3];
        if attempts_at(kicks, kick, gk, kicks.len()) > 0 {
            before.push(
                (
                    (kick, gk),
                    goals_at(kicks, kick, gk, kicks.len()),
                    attempts_at(kicks, kick, gk, kicks.len()),
                ),
            )
        } else {
            before
        }
    }
}

/// The probabilities of a strategy over directions.
pub open spec fn probabilities(s: Seq<(Direction, real)>) -> Seq<real> {
    Seq::new(s.len(), |i: int| s[i].1)
}

/// The numbers of a list of statistics as naturals.
pub open spec fn counted(v: Seq<((Direction, Direction), u32, u32)>) -> Seq<
    ((Direction, Direction), nat, nat),
> {
    Seq::new(v.len(), |i: int| (v[i].0, v[i].1 as nat, v[i].2 as nat))
}

/// No more goals than attempts, and no more attempts than kicks.
pub proof fn lemma_counts_bounded(kicks: Seq<SimulatedKick>, kick: Direction, gk: Direction, n: nat)
    ensures
        goals_at(kicks, kick, gk, n) <= attempts_at(kicks, kick, gk, n) <= n,
        goals_among(kicks, n) <= n,
    decreases n,
{
    if n > 0 {
        lemma_counts_bounded(kicks, kick, gk, (n - 1) as nat);
    }
}

impl SimulationResult {
    /// The share of goals among the kicks, in percent; zero without kicks.
    pub fn goal_percentage(&self) -> (r: Rational)
        ensures
            r@ == if self.total_kicks == 0 {
                0real
            } else {
                quotient(self.goals_scored as int, self.total_kicks as int) * 100real
            },
    {
        if self.total_kicks == 0 {
            Rational::zero()
        } else {
            let share = Rational::from_int(self.goals_scored as i64).div(
                &Rational::from_int(self.total_kicks as i64),
            );
            share.mul(&Rational::from_int(100))
        }
    }

    /// Goals and attempts among the kicks with the given directions.
    fn count_at(&self, kick: Direction, gk: Direction) -> (r: (u32, u32))
        requires
            self.kicks.len() <= u32::MAX,
        ensures
            r.0 == goals_at(self.kicks@, kick, gk, self.kicks.len() as nat),
            r.1 == attempts_at(self.kicks@, kick, gk, self.kicks.len() as nat),
    {
        let mut goals: u32 = 0;
        let mut attempts: u32 = 0;
        let mut k: usize = 0;
        while k < self.kicks.len()
            invariant
                k <= self.kicks.len(),
                self.kicks.len() <= u32::MAX,
                goals == goals_at(self.kicks@, kick, gk, k as nat),
                attempts == attempts_at(self.kicks@, kick, gk, k as nat),
            decreases self.kicks.len() - k,
        {
            proof {
                lemma_counts_bounded(self.kicks@, kick, gk, k as nat);
            }
            let shot = self.kicks[k];
            if shot.kick_direction == kick && shot.gk_direction == gk {
                if shot.is_goal {
                    goals = goals + 1;
                }
                attempts = attempts + 1;
            }
            k += 1;
        }
        (goals, attempts)
    }

    /// For every pair of directions that was played, row by row: the pair,
    /// its goals and its attempts.
    pub fn direction_stats(&self) -> (r: Vec<((Direction, Direction), u32, u32)>)
        requires
            self.kicks.len() <= u32::MAX,
        ensures
            counted(r@) == stats_of(self.kicks@, 9),
    {
        let mut stats: Vec<((Direction, Direction), u32, u32)> = Vec::new();
        let mut c: usize = 0;
        while c < 9
            invariant
                c <= 9,
                self.kicks.len() <= u32::MAX,
                counted(stats@) == stats_of(self.kicks@, c as nat),
            decreases 9 - c,
        {
            let kick = match Direction::from_index(c / 3) {
                Some(d) => d,
                None => Direction::Left,
            };
            let gk = match Direction::from_index(c % 3) {
                Some(d) => d,
                None => Direction::Left,
            };
            let (goals, attempts) = self.count_at(kick, gk);
            let ghost before = stats@;
            if attempts > 0 {
                stats.push(((kick, gk), goals, attempts));
                assert(counted(stats@) =~= counted(before).push(
                    ((kick, gk), goals as nat, attempts as nat),
                ));
            }
            c += 1;
        }
        stats
    }
}

/// A linear congruential generator; the same seed gives the same numbers.
#[derive(Debug)]
pub struct SimpleRng {
    state: u64,
}

impl SimpleRng {
    /// The state of the generator.
    pub closed spec fn current(&self) -> u64 {
        self.state
    }

    /// The generator in the state `seed`.
    pub fn new(seed: u64) -> (r: SimpleRng)
        ensures
            r.current() == seed,
    {
        SimpleRng { state: seed }
    }

    /// Steps the generator and returns its new state.
    pub fn next_u64(&mut self) -> (r: u64)
        ensures
            r == next_state(old(self).current()),
            final(self).current() == r,
    {
        self.state = self.state.wrapping_mul(6364136223846793005).wrapping_add(1);
        self.state
    }

    /// Steps the generator and returns a number in `[0, 1)`.
    pub fn next_unit(&mut self) -> (r: Rational)
        ensures
            final(self).current() == next_state(old(self).current()),
            r@ == unit_of(final(self).current()),
    {
        let top: u64 = self.next_u64() / 2048;
        Rational::from_int(top as i64).div(&Rational::from_int(0x20_0000_0000_0000))
    }
}

/// Draws a direction from the distribution `probs`.
pub fn sample_direction(rng: &mut SimpleRng, probs: &[Rational]) -> (r: Direction)
    requires
        probs.len() >= 1,
    ensures
        final(rng).current() == next_state(old(rng).current()),
        r == sampled(unit_of(final(rng).current()), reals(probs@)),
{
    let draw = rng.next_unit();
    let ghost pv = reals(probs@);
    let mut cumulative = Rational::zero();
    let mut i: usize = 0;
    while i < probs.len()
        invariant
            i <= probs.len(),
            probs.len() >= 1,
            pv == reals(probs@),
            rng.current() == next_state(old(rng).current()),
            draw@ == unit_of(rng.current()),
            cumulative@ == partial_sum(pv, i as nat),
            first_reached(draw@, pv, i as nat) is None,
        decreases probs.len() - i,
    {
        assert(pv[i as int] == probs@[i as int]@);
        cumulative = cumulative.add(&probs[i]);
        if draw.lt(&cumulative) {
            proof {
                assert(first_reached(draw@, pv, (i + 1) as nat) == Some(i as nat));
                lemma_first_reached_stays(draw@, pv, (i + 1) as nat, pv.len());
            }
            return match Direction::from_index(i) {
                Some(d) => d,
                None => Direction::Center,
            };
        }
        i += 1;
    }
    match Direction::from_index(probs.len() - 1) {
        Some(d) => d,
        None => Direction::Right,
    }
}

/// Once the running sum has exceeded the number, the index stays.
pub proof fn lemma_first_reached_stays(r: real, probs: Seq<real>, n: nat, m: nat)
    requires
        n <= m,
        first_reached(r, probs, n) is Some,
    ensures
        first_reached(r, probs, m) == first_reached(r, probs, n),
    decreases m,
{
    if n < m {
        lemma_first_reached_stays(r, probs, n, (m - 1) as nat);
    }
}

/// Simulates one kick on the success rates `matrix`.
fn simulate_kick(
    rng: &mut SimpleRng,
    matrix: &Vec<Vec<Rational>>,
    kicker_strategy: &[Rational],
    gk_strategy: &[Rational],
) -> (r: SimulatedKick)
    requires
        matrix.len() == 3,
        forall|i: int| 0 <= i < 3 ==> (#[trigger] matrix@[i])@.len() == 3,
        kicker_strategy.len() >= 1,
        gk_strategy.len() >= 1,
    ensures
        (r, final(rng).current()) == kick_from(
            old(rng).current(),
            real_rows(matrix@),
            reals(kicker_strategy@),
            reals(gk_strategy@),
        ),
{
    proof {
        reveal(kick_from);
    }
    let kick_direction = sample_direction(rng, kicker_strategy);
    let gk_direction = sample_direction(rng, gk_strategy);
    let row = kick_direction.index();
    let col = gk_direction.index();
    assert(real_rows(matrix@)[row as int][col as int] == matrix@[row as int]@[col as int]@);
    let is_goal = rng.next_unit().lt(&matrix[row][col]);
    SimulatedKick { kick_direction, gk_direction, is_goal }
}

/// A simulator of penalty kicks.
#[derive(Debug)]
pub struct Simulator {
    pk: PenaltyKick,
    rng_seed: u64,
}

impl Default for Simulator {
    /// The simulator that `new` gives.
    fn default() -> (r: Simulator)
        ensures
            r.rates() == crate::football::penalty::default_rates(),
            r.seed_value() == 12345,
    {
        Simulator::new()
    }
}

impl Simulator {
    /// The success rates of the kick that is simulated.
    pub closed spec fn rates(&self) -> Seq<Seq<real>> {
        self.pk.rates()
    }

    /// The seed of the generator.
    pub closed spec fn seed_value(&self) -> u64 {
        self.rng_seed
    }

    /// A simulator of the default kick, with the seed 12345.
    pub fn new() -> (r: Simulator)
        ensures
            r.rates() == crate::football::penalty::default_rates(),
            r.seed_value() == 12345,
    {
        Simulator { pk: PenaltyKick::with_default_data(), rng_seed: 12345 }
    }

    /// A simulator of the kick with the given success rates, with the seed
    /// 12345. Fails as `PenaltyKick::new` does.
    pub fn with_matrix(success_rates: Vec<Vec<Rational>>) -> (r: Result<Simulator, PayoffError>)
        ensures
            r is Ok <==> labels_fit(real_rows(success_rates@), 3, 3),
            r is Ok ==> (r->Ok_0).rates() == real_rows(success_rates@) && (r->Ok_0).seed_value()
                == 12345,
            r is Err ==> r->Err_0 is DimensionMismatch,
    {
        match PenaltyKick::new(success_rates) {
            Ok(pk) => Ok(Simulator { pk, rng_seed: 12345 }),
            Err(e) => Err(e),
        }
    }

    /// The same simulator with another seed.
    pub fn seed(self, seed: u64) -> (r: Simulator)
        ensures
            r.rates() == self.rates(),
            r.seed_value() == seed,
    {
        Simulator { pk: self.pk, rng_seed: seed }
    }

    /// Simulates `num_kicks` kicks in which kicker and goalkeeper draw
    /// their directions from the given strategies.
    pub fn simulate(&self, kicker_strategy: &[Rational], gk_strategy: &[Rational], num_kicks: u32) -> (r:
        SimulationResult)
        requires
            self.rates().len() > 0,
            kicker_strategy.len() >= 1,
            gk_strategy.len() >= 1,
        ensures
            r.kicks@ == kicks_from(
                self.seed_value(),
                self.rates(),
                reals(kicker_strategy@),
                reals(gk_strategy@),
                num_kicks as nat,
            ),
            r.total_kicks == num_kicks,
            r.goals_scored == goals_among(r.kicks@, num_kicks as nat),
            reals(r.kicker_strategy@) == reals(kicker_strategy@),
            reals(r.goalkeeper_strategy@) == reals(gk_strategy@),
    {
        let mut rng = SimpleRng::new(self.rng_seed);
        let mut kicks: Vec<SimulatedKick> = Vec::new();
        let mut goals_scored: u32 = 0;
        let matrix = self.pk.payoff_matrix().matrix();
        let ghost rates = self.rates();
        let ghost p = reals(kicker_strategy@);
        let ghost q = reals(gk_strategy@);
        let ghost seed = self.rng_seed;
        proof {
            assert forall|i: int| 0 <= i < 3 implies (#[trigger] matrix@[i])@.len() == 3 by {
                assert(rates[i].len() == rates[0].len());
                assert(rates[i] == reals(matrix@[i]@));
            }
        }
        let mut n: u32 = 0;
        while n < num_kicks
            invariant
                n <= num_kicks,
                rates == real_rows(matrix@),
                matrix.len() == 3,
                forall|i: int| 0 <= i < 3 ==> (#[trigger] matrix@[i])@.len() == 3,
                p == reals(kicker_strategy@),
                q == reals(gk_strategy@),
                kicker_strategy.len() >= 1,
                gk_strategy.len() >= 1,
                rng.current() == state_after(seed, rates, p, q, n as nat),
                kicks@ == kicks_from(seed, rates, p, q, n as nat),
                kicks.len() == n,
                goals_scored == goals_among(kicks@, n as nat),
                goals_scored <= n,
            decreases num_kicks - n,
        {
            let shot = simulate_kick(&mut rng, matrix, kicker_strategy, gk_strategy);
            if shot.is_goal {
                goals_scored = goals_scored + 1;
            }
            let ghost before = kicks@;
            kicks.push(shot);
            proof {
                lemma_goals_among_agree(before, kicks@, n as nat);
            }
            n += 1;
        }
        SimulationResult {
            kicks,
            goals_scored,
            total_kicks: num_kicks,
            kicker_strategy: duplicate_row(kicker_strategy),
            goalkeeper_strategy: duplicate_row(gk_strategy),
        }
    }

    /// The probabilities of a strategy over directions.
    fn probabilities_of(strategy: &Vec<(Direction, Rational)>) -> (r: Vec<Rational>)
        ensures
            reals(r@) == probabilities(directed(strategy@)),
            r.len() == strategy.len(),
    {
        let mut out: Vec<Rational> = Vec::new();
        let mut i: usize = 0;
        while i < strategy.len()
            invariant
                i <= strategy.len(),
                out.len() == i,
                forall|k: int| 0 <= k < i ==> (#[trigger] out@[k])@ == strategy@[k].1@,
            decreases strategy.len() - i,
        {
            out.push(strategy[i].1.clone());
            i += 1;
        }
        assert(reals(out@) =~= probabilities(directed(strategy@)));
        out
    }

    /// Simulates `num_kicks` kicks with the equilibrium strategies, and as
    /// many, from the same seed, with the given alternative strategies.
    /// Fails as the analysis of the kick does.
    pub fn compare_strategies(
        &self,
        alternative_kicker: &[Rational],
        alternative_gk: &[Rational],
        num_kicks: u32,
    ) -> (r: Result<(SimulationResult, SimulationResult), GameError>)
        requires
            alternative_kicker.len() >= 1,
            alternative_gk.len() >= 1,
        ensures
            match nash_outcome(payoff_form(self.rates())) {
                Ok(e) => {
                    &&& r is Ok
                    &&& (r->Ok_0).0.kicks@ == kicks_from(
                        self.seed_value(),
                        self.rates(),
                        probabilities(by_direction(e.0)),
                        probabilities(by_direction(e.1)),
                        num_kicks as nat,
                    )
                    &&& (r->Ok_0).1.kicks@ == kicks_from(
                        self.seed_value(),
                        self.rates(),
                        reals(alternative_kicker@),
                        reals(alternative_gk@),
                        num_kicks as nat,
                    )
                    &&& (r->Ok_0).0.total_kicks == num_kicks
                    &&& (r->Ok_0).1.total_kicks == num_kicks
                    &&& (r->Ok_0).0.goals_scored == goals_among((r->Ok_0).0.kicks@, num_kicks as nat)
                    &&& (r->Ok_0).1.goals_scored == goals_among((r->Ok_0).1.kicks@, num_kicks as nat)
                },
                Err(e) => r is Err && r->Err_0 == e,
            },
    {
        let analysis = match self.pk.analyze() {
            Ok(a) => a,
            Err(e) => {
                return Err(e);
            },
        };
        proof {
            // A kick that could be analysed has success rates.
            if self.rates().len() == 0 {
                assert(payoff_form(self.rates()).len() == 0);
            }
        }
        let optimal_kicker = Simulator::probabilities_of(&analysis.kicker_strategy);
        let optimal_gk = Simulator::probabilities_of(&analysis.goalkeeper_strategy);
        let optimal_result = self.simulate(
            optimal_kicker.as_slice(),
            optimal_gk.as_slice(),
            num_kicks,
        );
        let alternative_result = self.simulate(alternative_kicker, alternative_gk, num_kicks);
        Ok((optimal_result, alternative_result))
    }

    /// The kick that is simulated.
    pub fn penalty_kick(&self) -> (r: &PenaltyKick)
        ensures
            r.rates() == self.rates(),
    {
        &self.pk
    }
}

/// The goals among the first `n` kicks depend on those kicks alone.
pub proof fn lemma_goals_among_agree(a: Seq<SimulatedKick>, b: Seq<SimulatedKick>, n: nat)
    requires
        forall|i: int| 0 <= i < n ==> a[i] == b[i],
    ensures
        goals_among(a, n) == goals_among(b, n),
    decreases n,
{
    if n > 0 {
        lemma_goals_among_agree(a, b, (n - 1) as nat);
    }
}

} // verus!
