//! Race-time quadratics: for each race, the count of charge times whose
//! resulting distance beats the record.

use vstd::prelude::*;

verus! {

/// Ten to the `n`-th power.
pub open spec fn pow10(n: nat) -> int
    decreases n,
{
    if n == 0 {
        1
    } else {
        10 * pow10((n - 1) as nat)
    }
}

/// The number of decimal digits of `v`.
pub open spec fn n_digits(v: int) -> nat
    decreases v,
{
    if v < 10 {
        1
    } else {
        1 + n_digits(v / 10)
    }
}

/// `a` followed by the decimal digits of `b`.
pub open spec fn concat_digits(a: int, b: int) -> int {
    a * pow10(n_digits(b)) + b
}

pub proof fn lemma_pow10_pos(n: nat)
    ensures
        pow10(n) >= 1,
    decreases n,
{
    if n > 0 {
        lemma_pow10_pos((n - 1) as nat);
    }
}

/// One boat race: the time budget and the record distance to beat.
#[derive(Clone, Copy, Debug)]
pub struct Race {
    pub time: usize,
    pub record: usize,
}

/// Whether charging for `c` time units beats the record of `r`.
pub open spec fn beats(r: Race, c: int) -> bool {
    (r.time - c) * c > r.record
}

/// How many charge times in `[lo, hi)` beat the record of `r`.
pub open spec fn ways_between(r: Race, lo: int, hi: int) -> int
    decreases hi - lo,
{
    if lo >= hi {
        0
    } else {
        ways_between(r, lo, hi - 1) + (if beats(r, hi - 1) {
            1int
        } else {
            0int
        })
    }
}

impl Race {
    pub fn new(time: usize, record: usize) -> (r: Self)
        ensures
            r.time == time && r.record == record,
    {
        Self { time, record }
    }

    /// Distance covered after charging for `charge_time`: the remaining
    /// time at the speed the charge bought.
    pub fn calc_distance(&self, charge_time: usize) -> (r: usize)
        requires
            charge_time <= self.time,
            (self.time - charge_time) * charge_time <= usize::MAX,
        ensures
            r == (self.time - charge_time) * charge_time,
    {
        let remaining_time: usize = self.time - charge_time;
        let distance: usize = remaining_time * charge_time;
        distance
    }

    /// Whether charging for `charge_time` beats the record.
    pub fn beats_record(&self, charge_time: usize) -> (r: bool)
        requires
            charge_time <= self.time,
            (self.time - charge_time) * charge_time <= usize::MAX,
        ensures
            r == beats(*self, charge_time as int),
    {
        let distance = self.calc_distance(charge_time);
        distance > self.record
    }

    /// Counts the charge times strictly between zero and one less than
    /// the time budget that beat the record.
    #[verifier::loop_isolation(false)]
    pub fn num_ways_to_beat_record(&self) -> (r: usize)
        requires
            self.time >= 1,
            self.time * self.time <= 4 * usize::MAX,
        ensures
            r == ways_between(*self, 1, self.time - 1),
    {
        let mut count: usize = 0;
        let mut c: usize = 1;
        if self.time < 2 {
            return 0;
        }
        while c < self.time - 1
            invariant
                1 <= c <= self.time - 1,
                count == ways_between(*self, 1, c as int),
                count < c,
            decreases self.time - 1 - c,
        {
            proof {
                assert((self.time - c) * c <= usize::MAX) by (nonlinear_arith)
                    requires
                        1 <= c < self.time,
                        self.time * self.time <= 4 * usize::MAX,
                {}
            }
            if self.beats_record(c) {
                count = count + 1;
            }
            c = c + 1;
        }
        count
    }

    /// The race whose time and record are the digits of this race's
    /// followed by the other's; the other race unchanged when this one
    /// has no time. Mirrors reading several columns as one number.
    #[verifier::loop_isolation(false)]
    pub fn extend_with_race(&self, other: &Race) -> (r: Self)
        requires
            self.time != 0 ==> concat_digits(self.time as int, other.time as int) <= usize::MAX,
            self.time != 0 ==> concat_digits(self.record as int, other.record as int)
                <= usize::MAX,
        ensures
            self.time == 0 ==> r == *other,
            self.time != 0 ==> r.time == concat_digits(self.time as int, other.time as int)
                && r.record == concat_digits(self.record as int, other.record as int),
    {
        if self.time == 0 {
            return *other;
        }
        proof {
            lemma_pow10_pos(n_digits(other.time as int));
            assert(self.time * pow10(n_digits(other.time as int)) >= pow10(
                n_digits(other.time as int),
            )) by (nonlinear_arith)
                requires
                    self.time >= 1,
                    pow10(n_digits(other.time as int)) >= 1,
            {}
        }
        let pt: usize = pow10_of(other.time);
        let new_time: usize = self.time * pt + other.time;
        let new_record: usize = if self.record == 0 {
            other.record
        } else {
            proof {
                lemma_pow10_pos(n_digits(other.record as int));
                assert(self.record * pow10(n_digits(other.record as int)) >= pow10(
                    n_digits(other.record as int),
                )) by (nonlinear_arith)
                    requires
                        self.record >= 1,
                        pow10(n_digits(other.record as int)) >= 1,
                {}
            }
            let pr: usize = pow10_of(other.record);
            self.record * pr + other.record
        };
        proof {
            if self.record == 0 {
                assert(0 * pow10(n_digits(other.record as int)) == 0) by (nonlinear_arith);
            }
        }
        Self { time: new_time, record: new_record }
    }
}

/// Ten to the number of decimal digits of `v`, so that a number can be
/// written in front of `v`'s digits.
#[verifier::loop_isolation(false)]
fn pow10_of(v: usize) -> (r: usize)
    requires
        pow10(n_digits(v as int)) <= usize::MAX,
    ensures
        r == pow10(n_digits(v as int)),
{
    let mut p: usize = 1;
    let mut x: usize = v;
    let ghost mut k: nat = 0;
    proof {
        assert(pow10(0) == 1);
    }
    while x >= 10
        invariant
            p == pow10(k),
            n_digits(v as int) == k + n_digits(x as int),
        decreases x,
    {
        proof {
            assert(n_digits(x as int) == 1 + n_digits(x as int / 10));
            assert(n_digits(x as int / 10) >= 1);
            assert(pow10(k + 1) == 10 * pow10(k));
            lemma_pow10_le(k + 1, n_digits(v as int));
        }
        x = x / 10;
        p = p * 10;
        proof {
            k = k + 1;
        }
    }
    proof {
        assert(n_digits(x as int) == 1);
        assert(n_digits(v as int) == k + 1);
        assert(pow10(k + 1) == 10 * pow10(k));
        lemma_pow10_le(k + 1, n_digits(v as int));
    }
    p * 10
}

pub proof fn lemma_pow10_le(a: nat, b: nat)
    requires
        a <= b,
    ensures
        pow10(a) <= pow10(b),
    decreases b,
{
    if a < b {
        lemma_pow10_le(a, (b - 1) as nat);
        lemma_pow10_pos((b - 1) as nat);
    }
}

/// What parsing every token as a number that fits `usize` yields;
/// nothing when one fails.
pub open spec fn parse_all_usize(toks: Seq<Seq<char>>) -> Option<Seq<usize>>
    decreases toks.len(),
{
    if toks.len() == 0 {
        Some(Seq::empty())
    } else {
        match crate::text::parse_usize_spec(toks[0]) {
            Some(v) => match parse_all_usize(toks.drop_first()) {
                Some(rest) => Some(seq![v] + rest),
                None => None,
            },
            None => None,
        }
    }
}

/// The numbers on a line after its label token.
pub open spec fn nums_after_first(l: Seq<char>) -> Option<Seq<usize>> {
    let toks = crate::text::tokens_of(l);
    if toks.len() == 0 {
        Some(Seq::empty())
    } else {
        parse_all_usize(toks.drop_first())
    }
}

/// What parsing a race table yields: times on the first line, records
/// on the second, paired up to the shorter list.
pub open spec fn races_of(s: Seq<char>) -> Option<Seq<Race>> {
    let ls = crate::text::lines_of(s);
    if ls.len() < 2 {
        None
    } else {
        match nums_after_first(ls[0]) {
            Some(ts) => match nums_after_first(ls[1]) {
                Some(rcs) => {
                    let n = if ts.len() <= rcs.len() {
                        ts.len()
                    } else {
                        rcs.len()
                    };
                    Some(Seq::new(n, |i: int| Race { time: ts[i], record: rcs[i] }))
                },
                None => None,
            },
            None => None,
        }
    }
}

#[verifier::loop_isolation(false)]
fn parse_nums_after_first(line: &Vec<char>) -> (r: Option<Vec<usize>>)
    ensures
        match (r, nums_after_first(line@)) {
            (Some(v), Some(ns)) => v@ == ns,
            (None, None) => true,
            _ => false,
        },
{
    let toks = crate::text::tokens_of_chars(line);
    let ghost tks = crate::text::tokens_of(line@);
    let mut out: Vec<usize> = Vec::new();
    if toks.len() == 0 {
        return Some(out);
    }
    let mut j: usize = 1;
    proof {
        assert(tks.skip(1) =~= tks.drop_first());
    }
    while j < toks.len()
        invariant
            1 <= j <= tks.len(),
            match parse_all_usize(tks.skip(j as int)) {
                Some(rest) => parse_all_usize(tks.drop_first()) == Some(out@ + rest),
                None => parse_all_usize(tks.drop_first()) is None,
            },
        decreases tks.len() - j,
    {
        proof {
            assert(tks.skip(j as int)[0] == tks[j as int]);
            assert(tks.skip(j as int).drop_first() =~= tks.skip(j as int + 1));
            assert(toks@[j as int]@ =~= toks.deep_view()[j as int]);
        }
        let ghost out0 = out@;
        match crate::text::parse_usize(&toks[j]) {
            Some(v) => {
                out.push(v);
                proof {
                    match parse_all_usize(tks.skip(j as int + 1)) {
                        Some(rest) => {
                            assert(out0 + (seq![v] + rest) =~= out@ + rest);
                        },
                        None => {},
                    }
                }
            },
            None => {
                return None;
            },
        }
        j = j + 1;
    }
    proof {
        assert(tks.skip(tks.len() as int) =~= Seq::<Seq<char>>::empty());
        assert(out@ + Seq::<usize>::empty() =~= out@);
    }
    Some(out)
}

/// Parses the race table: one line of times, one line of records.
#[verifier::loop_isolation(false)]
pub fn parse_input(input: &str) -> (r: Option<Vec<Race>>)
    ensures
        match (r, races_of(input@)) {
            (Some(v), Some(rs)) => v@ == rs,
            (None, None) => true,
            _ => false,
        },
{
    let chars = crate::text::chars_of(input);
    let lines = crate::text::lines_of_chars(&chars);
    let ghost ls = crate::text::lines_of(input@);
    if lines.len() < 2 {
        return None;
    }
    proof {
        assert(lines@[0]@ =~= lines.deep_view()[0]);
        assert(lines@[1]@ =~= lines.deep_view()[1]);
    }
    let times = match parse_nums_after_first(&lines[0]) {
        Some(v) => v,
        None => {
            return None;
        },
    };
    let records = match parse_nums_after_first(&lines[1]) {
        Some(v) => v,
        None => {
            return None;
        },
    };
    let n: usize = if times.len() <= records.len() {
        times.len()
    } else {
        records.len()
    };
    let ghost target = races_of(input@)->Some_0;
    let mut races: Vec<Race> = Vec::new();
    let mut i: usize = 0;
    while i < n
        invariant
            i <= n,
            races@ == target.take(i as int),
        decreases n - i,
    {
        races.push(Race { time: times[i], record: records[i] });
        i = i + 1;
        proof {
            assert(races@ =~= target.take(i as int));
        }
    }
    proof {
        assert(target.take(n as int) =~= target);
    }
    Some(races)
}

/// The count of winning charge times of one race.
pub open spec fn ways_of(r: Race) -> int {
    ways_between(r, 1, r.time - 1)
}

/// The product of the counts of winning charge times.
pub open spec fn ways_product(rs: Seq<Race>) -> int
    decreases rs.len(),
{
    if rs.len() == 0 {
        1
    } else {
        ways_product(rs.drop_last()) * ways_of(rs.last())
    }
}

/// Every race is sane to count: a positive time whose square stays
/// computable, with no partial product of counts overflowing.
pub open spec fn races_fit(rs: Seq<Race>) -> bool {
    &&& forall|i: int|
        0 <= i < rs.len() ==> (#[trigger] rs[i]).time >= 1 && rs[i].time * rs[i].time <= 4
            * usize::MAX
    &&& forall|j: int| 0 <= j <= rs.len() ==> ways_product(#[trigger] rs.take(j)) <= usize::MAX
}

pub proof fn lemma_ways_nonneg(r: Race, lo: int, hi: int)
    ensures
        ways_between(r, lo, hi) >= 0,
    decreases hi - lo,
{
    if lo < hi {
        lemma_ways_nonneg(r, lo, hi - 1);
    }
}

/// The product over all races of the count of winning charge times;
/// nothing when the table is malformed.
#[verifier::loop_isolation(false)]
pub fn solve6(input: &str) -> (r: Option<usize>)
    requires
        match races_of(input@) {
            Some(rs) => races_fit(rs),
            None => true,
        },
    ensures
        match races_of(input@) {
            Some(rs) => r is Some && r->Some_0 == ways_product(rs),
            None => r is None,
        },
{
    let races = match parse_input(input) {
        Some(v) => v,
        None => {
            return None;
        },
    };
    let ghost rs = races@;
    let mut prod: usize = 1;
    let mut i: usize = 0;
    proof {
        assert(rs.take(0) =~= Seq::<Race>::empty());
    }
    while i < races.len()
        invariant
            i <= rs.len(),
            prod == ways_product(rs.take(i as int)),
        decreases rs.len() - i,
    {
        let w = races[i].num_ways_to_beat_record();
        proof {
            assert(rs.take(i as int + 1).drop_last() =~= rs.take(i as int));
            assert(rs.take(i as int + 1).last() == rs[i as int]);
            assert(ways_product(rs.take(i as int + 1)) <= usize::MAX);
            lemma_ways_nonneg(rs[i as int], 1, rs[i as int].time - 1);
            lemma_ways_nonneg(rs[i as int], 1, 0);
        }
        prod = prod * w;
        i = i + 1;
    }
    proof {
        assert(rs.take(rs.len() as int) =~= rs);
    }
    Some(prod)
}

/// The time and record that folding the races' digit columns together
/// yields: each race's digits appended to the accumulated number, a
/// zero-time accumulator replaced outright.
pub open spec fn fold_race(rs: Seq<Race>) -> (int, int)
    decreases rs.len(),
{
    if rs.len() == 0 {
        (0int, 0int)
    } else {
        let a = fold_race(rs.drop_last());
        if a.0 == 0 {
            (rs.last().time as int, rs.last().record as int)
        } else {
            (
                concat_digits(a.0, rs.last().time as int),
                concat_digits(a.1, rs.last().record as int),
            )
        }
    }
}

/// Every intermediate folded time and record fits the machine word.
pub open spec fn fold_fits(rs: Seq<Race>) -> bool {
    forall|j: int|
        0 <= j <= rs.len() ==> {
            let a = fold_race(#[trigger] rs.take(j));
            0 <= a.0 <= usize::MAX && 0 <= a.1 <= usize::MAX
        }
}

/// The count of winning charge times of the single race that all digit
/// columns read together describe; nothing when the table is malformed.
#[verifier::loop_isolation(false)]
pub fn solve6_star2(input: &str) -> (r: Option<usize>)
    requires
        match races_of(input@) {
            Some(rs) => {
                &&& fold_fits(rs)
                &&& fold_race(rs).0 >= 1
                &&& fold_race(rs).0 * fold_race(rs).0 <= 4 * usize::MAX
            },
            None => true,
        },
    ensures
        match races_of(input@) {
            Some(rs) => {
                let f = fold_race(rs);
                r is Some && r->Some_0 == ways_between(
                    Race { time: f.0 as usize, record: f.1 as usize },
                    1,
                    f.0 - 1,
                )
            },
            None => r is None,
        },
{
    let races = match parse_input(input) {
        Some(v) => v,
        None => {
            return None;
        },
    };
    let ghost rs = races@;
    let mut acc = Race::new(0, 0);
    let mut i: usize = 0;
    proof {
        assert(rs.take(0) =~= Seq::<Race>::empty());
    }
    while i < races.len()
        invariant
            i <= rs.len(),
            acc.time as int == fold_race(rs.take(i as int)).0,
            acc.record as int == fold_race(rs.take(i as int)).1,
        decreases rs.len() - i,
    {
        proof {
            assert(rs.take(i as int + 1).drop_last() =~= rs.take(i as int));
            assert(rs.take(i as int + 1).last() == rs[i as int]);
            assert(fold_race(rs.take(i as int + 1)).0 <= usize::MAX);
            assert(fold_race(rs.take(i as int + 1)).1 <= usize::MAX);
        }
        acc = acc.extend_with_race(&races[i]);
        i = i + 1;
    }
    proof {
        assert(rs.take(rs.len() as int) =~= rs);
    }
    Some(acc.num_ways_to_beat_record())
}

} // verus!
