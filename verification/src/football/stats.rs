//! Penalty-kick statistics: records of goals and attempts by direction, and
//! the success-rate matrix they give.

use crate::exact::rational::{quotient, Rational};
use crate::exact::vector::real_rows;
use vstd::prelude::*;
use vstd::string::StringExecFns;

verus! {

/// Why statistics could not be used.
#[derive(Debug)]
pub enum StatsError {
    /// The data is not what it should be; the text says why.
    InvalidData(String),
}

/// Goals and attempts for one pair of directions.
#[derive(Debug, Clone)]
pub struct PkRecord {
    pub kick_direction: String,
    pub gk_direction: String,
    pub goals: u32,
    pub attempts: u32,
}

/// The lowercase form of a text, as `str::to_lowercase` gives it.
pub uninterp spec fn lowercase(s: Seq<char>) -> Seq<char>;

/// The lowercase form of `s`. This is `str::to_lowercase`, whose result
/// depends on the text alone; the contract only gives that result its name.
#[verifier::external_body]
fn to_lowercase(s: &str) -> (r: String)
    ensures
        r@ == lowercase(s@),
{
    s.to_lowercase()
}

/// The matrix index that a lowercase direction word stands for.
pub open spec fn word_index(w: Seq<char>) -> Option<usize> {
    if w == "left"@ || w == "l"@ {
        Some(0usize)
    } else if w == "center"@ || w == "centre"@ || w == "middle"@ || w == "c"@ || w == "m"@ {
        Some(1usize)
    } else if w == "right"@ || w == "r"@ {
        Some(2usize)
    } else {
        None
    }
}

/// The name of the direction with the given index.
pub open spec fn index_name(index: nat) -> Seq<char> {
    if index == 0 {
        "left"@
    } else if index == 1 {
        "center"@
    } else if index == 2 {
        "right"@
    } else {
        "unknown"@
    }
}

/// The success rate of a record: goals by attempts, zero without attempts.
pub open spec fn rate_of(rec: PkRecord) -> real {
    if rec.attempts == 0 {
        0real
    } else {
        quotient(rec.goals as int, rec.attempts as int)
    }
}

/// The key under which a record is aggregated: its directions in lowercase.
pub open spec fn record_key(rec: PkRecord) -> (Seq<char>, Seq<char>) {
    (lowercase(rec.kick_direction@), lowercase(rec.gk_direction@))
}

/// The directions of a record as they stand.
pub open spec fn stored_key(rec: PkRecord) -> (Seq<char>, Seq<char>) {
    (rec.kick_direction@, rec.gk_direction@)
}

/// The goals of the first `n` records whose key is `key`.
pub open spec fn goals_of(recs: Seq<PkRecord>, key: (Seq<char>, Seq<char>), n: nat) -> nat
    decreases n,
{
    if n == 0 {
        0
    } else {
        goals_of(recs, key, (n - 1) as nat) + if record_key(recs[n - 1]) == key {
            recs[n - 1].goals as nat
        } else {
            0
        }
    }
}

/// The attempts of the first `n` records whose key is `key`.
pub open spec fn attempts_of(recs: Seq<PkRecord>, key: (Seq<char>, Seq<char>), n: nat) -> nat
    decreases n,
{
    if n == 0 {
        0
    } else {
        attempts_of(recs, key, (n - 1) as nat) + if record_key(recs[n - 1]) == key {
            recs[n - 1].attempts as nat
        } else {
            0
        }
    }
}

/// Whether one of the first `n` records has the key `key`.
pub open spec fn has_key(recs: Seq<PkRecord>, n: nat, key: (Seq<char>, Seq<char>)) -> bool {
    exists|i: int| 0 <= i < n && record_key(#[trigger] recs[i]) == key
}

/// Whether one of the records of `out` stands under `key`.
pub open spec fn holds_key(out: Seq<PkRecord>, key: (Seq<char>, Seq<char>)) -> bool {
    exists|a: int| 0 <= a < out.len() && stored_key(#[trigger] out[a]) == key
}

/// Whether the goals and the attempts under every key fit a `u32`.
pub open spec fn tallies_fit(recs: Seq<PkRecord>) -> bool {
    forall|key: (Seq<char>, Seq<char>)|
        #![trigger goals_of(recs, key, recs.len())]
        #![trigger attempts_of(recs, key, recs.len())]
        goals_of(recs, key, recs.len()) <= u32::MAX && attempts_of(recs, key, recs.len())
            <= u32::MAX
}

/// Whether `out` aggregates the first `n` records of `recs`: one record for
/// every key that occurs, none for another, each with the goals and
/// attempts of its key summed.
pub open spec fn aggregates(recs: Seq<PkRecord>, n: nat, out: Seq<PkRecord>) -> bool {
    &&& forall|a: int, b: int|
        0 <= a < b < out.len() ==> stored_key(#[trigger] out[a]) != stored_key(#[trigger] out[b])
    &&& forall|a: int|
        0 <= a < out.len() ==> {
            &&& has_key(recs, n, stored_key(#[trigger] out[a]))
            &&& out[a].goals == goals_of(recs, stored_key(out[a]), n)
            &&& out[a].attempts == attempts_of(recs, stored_key(out[a]), n)
        }
    &&& forall|i: int| 0 <= i < n ==> holds_key(out, record_key(#[trigger] recs[i]))
}

/// The tallies of a key grow with the number of records counted.
pub proof fn lemma_tallies_grow(recs: Seq<PkRecord>, key: (Seq<char>, Seq<char>), n: nat, m: nat)
    requires
        n <= m,
    ensures
        goals_of(recs, key, n) <= goals_of(recs, key, m),
        attempts_of(recs, key, n) <= attempts_of(recs, key, m),
    decreases m,
{
    if n < m {
        lemma_tallies_grow(recs, key, n, (m - 1) as nat);
    }
}

/// A key that no record has tallies to zero.
pub proof fn lemma_tallies_of_absent(recs: Seq<PkRecord>, key: (Seq<char>, Seq<char>), n: nat)
    requires
        !has_key(recs, n, key),
    ensures
        goals_of(recs, key, n) == 0,
        attempts_of(recs, key, n) == 0,
    decreases n,
{
    if n > 0 {
        assert(record_key(recs[n - 1]) != key);
        assert(!has_key(recs, (n - 1) as nat, key)) by {
            if has_key(recs, (n - 1) as nat, key) {
                let i = choose|i: int| 0 <= i < n - 1 && record_key(#[trigger] recs[i]) == key;
                assert(0 <= i < n && record_key(recs[i]) == key);
            }
        }
        lemma_tallies_of_absent(recs, key, (n - 1) as nat);
    }
}

/// Whether two texts are the same.
fn same_text(a: &str, b: &str) -> (r: bool)
    ensures
        r == (a@ == b@),
{
    let x = String::from_str(a);
    let y = String::from_str(b);
    x == y
}

/// The matrix index that the lowercase direction word `word` stands for:
/// `left` or `l` is 0; `center`, `centre`, `middle`, `c` or `m` is 1; `right`
/// or `r` is 2; another word stands for none.
pub fn index_of_word(word: &str) -> (r: Option<usize>)
    ensures
        r == word_index(word@),
{
    if same_text(word, "left") || same_text(word, "l") {
        Some(0)
    } else if same_text(word, "center") || same_text(word, "centre") || same_text(word, "middle")
        || same_text(word, "c") || same_text(word, "m") {
        Some(1)
    } else if same_text(word, "right") || same_text(word, "r") {
        Some(2)
    } else {
        None
    }
}

/// The matrix index of a direction given in words, whatever its case. Fails
/// on an unknown word, naming it in lowercase.
pub fn direction_to_index(direction: &str) -> (r: Result<usize, StatsError>)
    ensures
        match word_index(lowercase(direction@)) {
            Some(i) => r is Ok && r->Ok_0 == i,
            None => r is Err && (r->Err_0)->InvalidData_0@ == "Unknown direction: "@ + lowercase(
                direction@,
            ),
        },
{
    let lower = to_lowercase(direction);
    match index_of_word(lower.as_str()) {
        Some(i) => Ok(i),
        None => Err(
            StatsError::InvalidData(String::from_str("Unknown direction: ").concat(lower.as_str())),
        ),
    }
}

/// The name of the direction with the given index.
pub fn index_to_direction(index: usize) -> (r: &'static str)
    ensures
        r@ == index_name(index as nat),
{
    match index {
        0 => "left",
        1 => "center",
        2 => "right",
        _ => "unknown",
    }
}

impl PkRecord {
    /// The success rate: goals by attempts, zero without attempts.
    pub fn success_rate(&self) -> (r: Rational)
        ensures
            r@ == rate_of(*self),
    {
        if self.attempts == 0 {
            Rational::zero()
        } else {
            Rational::from_int(self.goals as i64).div(&Rational::from_int(self.attempts as i64))
        }
    }
}

/// The place in `out` of the record that stands under the given directions.
fn find_key(out: &Vec<PkRecord>, kick: &String, gk: &String) -> (r: Option<usize>)
    ensures
        r is Some ==> r->Some_0 < out.len() && stored_key(out@[r->Some_0 as int]) == (kick@, gk@),
        r is None ==> !holds_key(out@, (kick@, gk@)),
{
    let mut a: usize = 0;
    while a < out.len()
        invariant
            a <= out.len(),
            forall|b: int| 0 <= b < a ==> stored_key(#[trigger] out@[b]) != (kick@, gk@),
        decreases out.len() - a,
    {
        if out[a].kick_direction == *kick && out[a].gk_direction == *gk {
            return Some(a);
        }
        a += 1;
    }
    None
}

/// Sums the goals and attempts of the records that have the same
/// directions, whatever their case. The result holds one record for every
/// pair of directions that occurs, written in lowercase.
pub fn aggregate_records(records: Vec<PkRecord>) -> (r: Vec<PkRecord>)
    requires
        tallies_fit(records@),
    ensures
        aggregates(records@, records.len() as nat, r@),
{
    let ghost recs = records@;
    let mut out: Vec<PkRecord> = Vec::new();
    let mut n: usize = 0;
    while n < records.len()
        invariant
            n <= records.len(),
            recs == records@,
            tallies_fit(recs),
            aggregates(recs, n as nat, out@),
        decreases records.len() - n,
    {
        let kick = to_lowercase(records[n].kick_direction.as_str());
        let gk = to_lowercase(records[n].gk_direction.as_str());
        let goals = records[n].goals;
        let attempts = records[n].attempts;
        let ghost key = (kick@, gk@);
        let ghost before = out@;
        assert(key == record_key(recs[n as int]));
        proof {
            lemma_tallies_grow(recs, key, (n + 1) as nat, recs.len());
        }
        match find_key(&out, &kick, &gk) {
            Some(at) => {
                let old_goals = out[at].goals;
                let old_attempts = out[at].attempts;
                out.set(
                    at,
                    PkRecord {
                        kick_direction: kick,
                        gk_direction: gk,
                        goals: old_goals + goals,
                        attempts: old_attempts + attempts,
                    },
                );
                proof {
                    let now = out@;
                    assert forall|a: int| 0 <= a < now.len() implies stored_key(#[trigger] now[a])
                        == stored_key(before[a]) by {}
                    assert forall|a: int| 0 <= a < now.len() implies {
                        &&& has_key(recs, (n + 1) as nat, stored_key(#[trigger] now[a]))
                        &&& now[a].goals == goals_of(recs, stored_key(now[a]), (n + 1) as nat)
                        &&& now[a].attempts == attempts_of(recs, stored_key(now[a]), (n + 1) as nat)
                    } by {
                        let k = stored_key(before[a]);
                        assert(has_key(recs, n as nat, k));
                        let i = choose|i: int| 0 <= i < n && record_key(#[trigger] recs[i]) == k;
                        assert(0 <= i < n + 1 && record_key(recs[i]) == k);
                        if a != at {
                            assert(k != key) by {
                                if a < at {
                                    assert(stored_key(before[a]) != stored_key(before[at as int]));
                                } else {
                                    assert(stored_key(before[at as int]) != stored_key(before[a]));
                                }
                            }
                        }
                    }
                    assert forall|i: int| 0 <= i < n + 1 implies holds_key(
                        now,
                        record_key(#[trigger] recs[i]),
                    ) by {
                        if i < n {
                            assert(holds_key(before, record_key(recs[i])));
                            let a = choose|a: int|
                                0 <= a < before.len() && stored_key(#[trigger] before[a])
                                    == record_key(recs[i]);
                            assert(stored_key(now[a]) == record_key(recs[i]));
                        } else {
                            assert(stored_key(now[at as int]) == key);
                        }
                    }
                }
            },
            None => {
                out.push(PkRecord { kick_direction: kick, gk_direction: gk, goals, attempts });
                proof {
                    let now = out@;
                    let last = before.len() as int;
                    assert(!has_key(recs, n as nat, key)) by {
                        if has_key(recs, n as nat, key) {
                            let i = choose|i: int|
                                0 <= i < n && record_key(#[trigger] recs[i]) == key;
                            assert(holds_key(before, record_key(recs[i])));
                        }
                    }
                    lemma_tallies_of_absent(recs, key, n as nat);
                    assert forall|a: int, b: int| 0 <= a < b < now.len() implies stored_key(
                        #[trigger] now[a],
                    ) != stored_key(#[trigger] now[b]) by {
                        if b == last {
                            assert(now[a] == before[a]);
                            if stored_key(before[a]) == key {
                                assert(holds_key(before, key));
                            }
                        } else {
                            assert(now[a] == before[a] && now[b] == before[b]);
                        }
                    }
                    assert forall|a: int| 0 <= a < now.len() implies {
                        &&& has_key(recs, (n + 1) as nat, stored_key(#[trigger] now[a]))
                        &&& now[a].goals == goals_of(recs, stored_key(now[a]), (n + 1) as nat)
                        &&& now[a].attempts == attempts_of(recs, stored_key(now[a]), (n + 1) as nat)
                    } by {
                        if a == last {
                            assert(record_key(recs[n as int]) == key);
                        } else {
                            assert(now[a] == before[a]);
                            let k = stored_key(before[a]);
                            assert(has_key(recs, n as nat, k));
                            let i = choose|i: int|
                                0 <= i < n && record_key(#[trigger] recs[i]) == k;
                            assert(0 <= i < n + 1 && record_key(recs[i]) == k);
                            if k == key {
                                assert(holds_key(before, key));
                            }
                        }
                    }
                    assert forall|i: int| 0 <= i < n + 1 implies holds_key(
                        now,
                        record_key(#[trigger] recs[i]),
                    ) by {
                        if i < n {
                            assert(holds_key(before, record_key(recs[i])));
                            let a = choose|a: int|
                                0 <= a < before.len() && stored_key(#[trigger] before[a])
                                    == record_key(recs[i]);
                            assert(now[a] == before[a]);
                            assert(stored_key(now[a]) == record_key(recs[i]));
                        } else {
                            assert(stored_key(now[last]) == key);
                        }
                    }
                }
            },
        }
        n += 1;
    }
    out
}

/// Whether the goals and the attempts under the key of record `i` fit a
/// `u32`.
fn tally_fits(records: &Vec<PkRecord>, keys: &Vec<(String, String)>, i: usize) -> (r: bool)
    requires
        i < records.len(),
        keys.len() == records.len(),
        forall|j: int|
            0 <= j < keys.len() ==> ((#[trigger] keys@[j]).0@, keys@[j].1@) == record_key(
                records@[j],
            ),
    ensures
        r == (goals_of(records@, record_key(records@[i as int]), records.len() as nat) <= u32::MAX
            && attempts_of(records@, record_key(records@[i as int]), records.len() as nat)
            <= u32::MAX),
{
    let ghost recs = records@;
    let ghost key = record_key(recs[i as int]);
    let mut goals: u64 = 0;
    let mut attempts: u64 = 0;
    let mut j: usize = 0;
    while j < records.len()
        invariant
            j <= records.len(),
            i < records.len(),
            recs == records@,
            key == record_key(recs[i as int]),
            keys.len() == records.len(),
            forall|j: int|
                0 <= j < keys.len() ==> ((#[trigger] keys@[j]).0@, keys@[j].1@) == record_key(
                    records@[j],
                ),
            goals == goals_of(recs, key, j as nat),
            attempts == attempts_of(recs, key, j as nat),
            goals <= u32::MAX,
            attempts <= u32::MAX,
        decreases records.len() - j,
    {
        assert((keys@[j as int].0@, keys@[j as int].1@) == record_key(recs[j as int]));
        assert((keys@[i as int].0@, keys@[i as int].1@) == key);
        if keys[j].0 == keys[i].0 && keys[j].1 == keys[i].1 {
            goals = goals + records[j].goals as u64;
            attempts = attempts + records[j].attempts as u64;
        }
        if goals > u32::MAX as u64 || attempts > u32::MAX as u64 {
            proof {
                lemma_tallies_grow(recs, key, (j + 1) as nat, recs.len());
            }
            return false;
        }
        j += 1;
    }
    true
}

/// Aggregates the records as `aggregate_records` does, where the goals and
/// attempts under every pair of directions fit a `u32`; gives none where
/// they do not.
pub fn try_aggregate_records(records: Vec<PkRecord>) -> (r: Option<Vec<PkRecord>>)
    ensures
        r is Some <==> tallies_fit(records@),
        r is Some ==> aggregates(records@, records.len() as nat, (r->Some_0)@),
{
    let ghost recs = records@;
    let mut keys: Vec<(String, String)> = Vec::new();
    let mut k: usize = 0;
    while k < records.len()
        invariant
            k <= records.len(),
            recs == records@,
            keys.len() == k,
            forall|j: int|
                0 <= j < k ==> ((#[trigger] keys@[j]).0@, keys@[j].1@) == record_key(recs[j]),
        decreases records.len() - k,
    {
        let kick = to_lowercase(records[k].kick_direction.as_str());
        let gk = to_lowercase(records[k].gk_direction.as_str());
        keys.push((kick, gk));
        k += 1;
    }
    let mut i: usize = 0;
    while i < records.len()
        invariant
            i <= records.len(),
            recs == records@,
            keys.len() == records.len(),
            forall|j: int|
                0 <= j < keys.len() ==> ((#[trigger] keys@[j]).0@, keys@[j].1@) == record_key(
                    records@[j],
                ),
            forall|j: int|
                0 <= j < i ==> goals_of(recs, record_key(#[trigger] recs[j]), recs.len())
                    <= u32::MAX && attempts_of(recs, record_key(recs[j]), recs.len()) <= u32::MAX,
        decreases records.len() - i,
    {
        if !tally_fits(&records, &keys, i) {
            return None;
        }
        i += 1;
    }
    proof {
        assert forall|key: (Seq<char>, Seq<char>)|
            #![trigger goals_of(recs, key, recs.len())]
            #![trigger attempts_of(recs, key, recs.len())]
            goals_of(recs, key, recs.len()) <= u32::MAX && attempts_of(recs, key, recs.len())
                <= u32::MAX by {
            if has_key(recs, recs.len(), key) {
                let j = choose|j: int| 0 <= j < recs.len() && record_key(#[trigger] recs[j]) == key;
                assert(goals_of(recs, record_key(recs[j]), recs.len()) <= u32::MAX);
            } else {
                lemma_tallies_of_absent(recs, key, recs.len());
            }
        }
    }
    Some(aggregate_records(records))
}

/// The matrix cell that a record speaks of; none where one of its
/// directions is unknown.
pub open spec fn cell_of(rec: PkRecord) -> Option<(usize, usize)> {
    match (
        word_index(lowercase(rec.kick_direction@)),
        word_index(lowercase(rec.gk_direction@)),
    ) {
        (Some(k), Some(g)) => Some((k, g)),
        _ => None,
    }
}

/// What is said of a record with an unknown direction: the kick direction
/// where that is unknown, else the goalkeeper's.
pub open spec fn unknown_text(rec: PkRecord) -> Seq<char> {
    if word_index(lowercase(rec.kick_direction@)) is None {
        "Unknown direction: "@ + lowercase(rec.kick_direction@)
    } else {
        "Unknown direction: "@ + lowercase(rec.gk_direction@)
    }
}

/// What is said of a cell without data.
pub open spec fn missing_text(kick: nat, gk: nat) -> Seq<char> {
    "Missing data for kick="@ + index_name(kick) + ", gk="@ + index_name(gk)
}

/// The first of the first `n` records with an unknown direction.
pub open spec fn first_unknown(recs: Seq<PkRecord>, n: nat) -> Option<int>
    decreases n,
{
    if n == 0 {
        None
    } else {
        match first_unknown(recs, (n - 1) as nat) {
            Some(k) => Some(k),
            None => if cell_of(recs[n - 1]) is None {
                Some(n - 1)
            } else {
                None
            },
        }
    }
}

/// The last of the first `n` records that speaks of `cell`.
pub open spec fn latest(recs: Seq<PkRecord>, cell: (usize, usize), n: nat) -> Option<int>
    decreases n,
{
    if n == 0 {
        None
    } else if cell_of(recs[n - 1]) == Some(cell) {
        Some(n - 1)
    } else {
        latest(recs, cell, (n - 1) as nat)
    }
}

/// Whether some record speaks of `cell`, and `value` is the success rate of
/// the last that does.
pub open spec fn is_rate_of_cell(recs: Seq<PkRecord>, cell: (usize, usize), value: real) -> bool {
    let k = latest(recs, cell, recs.len());
    k is Some && value == rate_of(recs[k->Some_0])
}

/// The cell with the number `c`, counting row by row in a matrix three wide.
pub open spec fn numbered_cell(c: nat) -> (usize, usize) {
    ((c / 3) as usize, (c % 3) as usize)
}

/// The first of the first `c` cells, row by row, of which no record
/// speaks.
pub open spec fn first_missing(recs: Seq<PkRecord>, c: nat) -> Option<nat>
    decreases c,
{
    if c == 0 {
        None
    } else {
        match first_missing(recs, (c - 1) as nat) {
            Some(x) => Some(x),
            None => if latest(recs, numbered_cell((c - 1) as nat), recs.len()) is None {
                Some((c - 1) as nat)
            } else {
                None
            },
        }
    }
}

/// The success rates of the records as a matrix three by three: rows are
/// kick directions, columns the goalkeeper's, and of several records for
/// one cell the last counts. Fails on the first record with an unknown
/// direction; else on the first cell, row by row, without a record.
pub fn records_to_matrix(records: &[PkRecord]) -> (r: Result<Vec<Vec<Rational>>, StatsError>)
    ensures
        match first_unknown(records@, records.len() as nat) {
            Some(k) => r is Err && (r->Err_0)->InvalidData_0@ == unknown_text(records@[k]),
            None => match first_missing(records@, 9) {
                Some(c) => r is Err && (r->Err_0)->InvalidData_0@ == missing_text(c / 3, c % 3),
                None => {
                    &&& r is Ok
                    &&& (r->Ok_0).len() == 3
                    &&& forall|i: int| 0 <= i < 3 ==> (#[trigger] (r->Ok_0)@[i]).len() == 3
                    &&& forall|i: int, j: int|
                        0 <= i < 3 && 0 <= j < 3 ==> is_rate_of_cell(
                            records@,
                            (i as usize, j as usize),
                            #[trigger] real_rows((r->Ok_0)@)[i][j],
                        )
                },
            },
        },
{
    let ghost recs = records@;
    let mut cells: Vec<Option<Rational>> = Vec::new();
    let mut c: usize = 0;
    while c < 9
        invariant
            c <= 9,
            cells.len() == c,
            forall|x: int| 0 <= x < c ==> (#[trigger] cells@[x]) is None,
        decreases 9 - c,
    {
        cells.push(None);
        c += 1;
    }
    let mut n: usize = 0;
    while n < records.len()
        invariant
            n <= records.len(),
            recs == records@,
            cells.len() == 9,
            first_unknown(recs, n as nat) is None,
            forall|x: int|
                0 <= x < 9 ==> match latest(recs, numbered_cell(x as nat), n as nat) {
                    Some(k) => (#[trigger] cells@[x]) is Some && (cells@[x]->Some_0)@ == rate_of(
                        recs[k],
                    ),
                    None => cells@[x] is None,
                },
        decreases records.len() - n,
    {
        let kick_idx = match direction_to_index(records[n].kick_direction.as_str()) {
            Ok(k) => k,
            Err(e) => {
                proof {
                    assert(cell_of(recs[n as int]) is None);
                    assert(first_unknown(recs, (n + 1) as nat) == Some(n as int));
                    lemma_first_unknown_stays(recs, (n + 1) as nat, recs.len());
                }
                return Err(e);
            },
        };
        let gk_idx = match direction_to_index(records[n].gk_direction.as_str()) {
            Ok(g) => g,
            Err(e) => {
                proof {
                    assert(cell_of(recs[n as int]) is None);
                    assert(first_unknown(recs, (n + 1) as nat) == Some(n as int));
                    lemma_first_unknown_stays(recs, (n + 1) as nat, recs.len());
                }
                return Err(e);
            },
        };
        assert(cell_of(recs[n as int]) == Some((kick_idx, gk_idx)));
        assert(kick_idx < 3 && gk_idx < 3);
        let rate = records[n].success_rate();
        let ghost before = cells@;
        cells.set(3 * kick_idx + gk_idx, Some(rate));
        proof {
            assert forall|x: int| 0 <= x < 9 implies match latest(
                recs,
                numbered_cell(x as nat),
                (n + 1) as nat,
            ) {
                Some(k) => (#[trigger] cells@[x]) is Some && (cells@[x]->Some_0)@ == rate_of(
                    recs[k],
                ),
                None => cells@[x] is None,
            } by {
                if x != 3 * kick_idx + gk_idx {
                    assert(numbered_cell(x as nat) != (kick_idx, gk_idx));
                    assert(cells@[x] == before[x]);
                } else {
                    assert(numbered_cell(x as nat) == (kick_idx, gk_idx));
                }
            }
        }
        n += 1;
    }
    let mut matrix: Vec<Vec<Rational>> = Vec::new();
    let mut i: usize = 0;
    while i < 3
        invariant
            i <= 3,
            recs == records@,
            cells.len() == 9,
            first_unknown(recs, recs.len()) is None,
            first_missing(recs, (3 * i) as nat) is None,
            forall|x: int|
                0 <= x < 9 ==> match latest(recs, numbered_cell(x as nat), recs.len()) {
                    Some(k) => (#[trigger] cells@[x]) is Some && (cells@[x]->Some_0)@ == rate_of(
                        recs[k],
                    ),
                    None => cells@[x] is None,
                },
            matrix.len() == i,
            forall|p: int| 0 <= p < i ==> (#[trigger] matrix@[p]).len() == 3,
            forall|p: int, q: int|
                0 <= p < i && 0 <= q < 3 ==> is_rate_of_cell(
                    recs,
                    (p as usize, q as usize),
                    (#[trigger] matrix@[p]@[q])@,
                ),
        decreases 3 - i,
    {
        let mut row: Vec<Rational> = Vec::new();
        let mut j: usize = 0;
        while j < 3
            invariant
                j <= 3,
                i < 3,
                recs == records@,
                cells.len() == 9,
                first_unknown(recs, recs.len()) is None,
                first_missing(recs, (3 * i + j) as nat) is None,
                forall|x: int|
                    0 <= x < 9 ==> match latest(recs, numbered_cell(x as nat), recs.len()) {
                        Some(k) => (#[trigger] cells@[x]) is Some && (cells@[x]->Some_0)@
                            == rate_of(recs[k]),
                        None => cells@[x] is None,
                    },
                row.len() == j,
                forall|q: int|
                    0 <= q < j ==> is_rate_of_cell(recs, (i, q as usize), (#[trigger] row@[q])@),
            decreases 3 - j,
        {
            let x = 3 * i + j;
            assert(numbered_cell(x as nat) == (i, j));
            assert(cells@[x as int] is Some <==> latest(recs, (i, j), recs.len()) is Some);
            match &cells[x] {
                Some(v) => {
                    let ghost earlier = row@;
                    row.push(v.clone());
                    proof {
                        assert(is_rate_of_cell(recs, (i, j), v@));
                        assert forall|q: int| 0 <= q < j + 1 implies is_rate_of_cell(
                            recs,
                            (i, q as usize),
                            (#[trigger] row@[q])@,
                        ) by {
                            if q < j {
                                assert(row@[q] == earlier[q]);
                            } else {
                                assert(q as usize == j);
                            }
                        }
                    }
                },
                None => {
                    proof {
                        assert(first_missing(recs, (x + 1) as nat) == Some(x as nat));
                        lemma_first_missing_stays(recs, (x + 1) as nat, 9);
                    }
                    let text = String::from_str("Missing data for kick=").concat(
                        index_to_direction(i),
                    ).concat(", gk=").concat(index_to_direction(j));
                    return Err(StatsError::InvalidData(text));
                },
            }
            j += 1;
        }
        let ghost above = matrix@;
        matrix.push(row);
        proof {
            assert forall|p: int, q: int| 0 <= p < i + 1 && 0 <= q < 3 implies is_rate_of_cell(
                recs,
                (p as usize, q as usize),
                (#[trigger] matrix@[p]@[q])@,
            ) by {
                if p < i {
                    assert(matrix@[p] == above[p]);
                    assert(is_rate_of_cell(recs, (p as usize, q as usize), above[p]@[q]@));
                } else {
                    assert(p as usize == i);
                    assert(matrix@[p] == row);
                    assert(is_rate_of_cell(recs, (i, q as usize), row@[q]@));
                }
            }
        }
        i += 1;
    }
    proof {
        assert forall|i: int, j: int| 0 <= i < 3 && 0 <= j < 3 implies is_rate_of_cell(
            recs,
            (i as usize, j as usize),
            #[trigger] real_rows(matrix@)[i][j],
        ) by {
            assert(real_rows(matrix@)[i][j] == matrix@[i]@[j]@);
            assert(is_rate_of_cell(recs, (i as usize, j as usize), matrix@[i]@[j]@));
        }
    }
    Ok(matrix)
}

/// Once a record is found with an unknown direction, it stays the first.
pub proof fn lemma_first_unknown_stays(recs: Seq<PkRecord>, n: nat, m: nat)
    requires
        n <= m,
        first_unknown(recs, n) is Some,
    ensures
        first_unknown(recs, m) == first_unknown(recs, n),
    decreases m,
{
    if n < m {
        lemma_first_unknown_stays(recs, n, (m - 1) as nat);
    }
}

/// Once a cell is found missing, it stays the first missing one.
pub proof fn lemma_first_missing_stays(recs: Seq<PkRecord>, c: nat, d: nat)
    requires
        c <= d,
        first_missing(recs, c) is Some,
    ensures
        first_missing(recs, d) == first_missing(recs, c),
    decreases d,
{
    if c < d {
        lemma_first_missing_stays(recs, c, (d - 1) as nat);
    }
}

} // verus!
