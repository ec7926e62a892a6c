//! Scratch-card counting: each card's own numbers are matched against
//! its winning numbers, for points or for cascading copies of later
//! cards.

use std::collections::HashMap;
use vstd::prelude::*;

verus! {

broadcast use vstd::std_specs::hash::group_hash_axioms;

/// One scratch card: its number, the winning numbers, and the numbers
/// it holds, each list without repeats.
#[derive(Debug)]
pub struct Card {
    pub id: usize,
    pub winning_nums: Vec<usize>,
    pub your_nums: Vec<usize>,
}

/// Two to the `n`-th power.
pub open spec fn pow2(n: nat) -> int
    decreases n,
{
    if n == 0 {
        1
    } else {
        2 * pow2((n - 1) as nat)
    }
}

pub proof fn lemma_pow2_le(a: nat, b: nat)
    requires
        a <= b,
    ensures
        pow2(a) <= pow2(b),
        pow2(a) >= 1,
    decreases b,
{
    if a == b {
        if a > 0 {
            lemma_pow2_le((a - 1) as nat, (b - 1) as nat);
        }
    } else {
        lemma_pow2_le(a, (b - 1) as nat);
    }
}

/// How many of `yours` stand among `winning`.
pub open spec fn count_in(yours: Seq<usize>, winning: Seq<usize>) -> int
    decreases yours.len(),
{
    if yours.len() == 0 {
        0
    } else {
        count_in(yours.drop_last(), winning) + (if winning.contains(yours.last()) {
            1int
        } else {
            0int
        })
    }
}

/// The tokens parsing as positive numbers, in order.
pub open spec fn kept_usize(tokens: Seq<Seq<char>>) -> Seq<usize>
    decreases tokens.len(),
{
    if tokens.len() == 0 {
        Seq::empty()
    } else {
        let rest = kept_usize(tokens.drop_last());
        match crate::text::parse_usize_spec(tokens.last()) {
            Some(v) => if v > 0 {
                rest.push(v)
            } else {
                rest
            },
            None => rest,
        }
    }
}

/// The list with later repeats removed.
pub open spec fn dedup_first(s: Seq<usize>) -> Seq<usize>
    decreases s.len(),
{
    if s.len() == 0 {
        Seq::empty()
    } else {
        let d = dedup_first(s.drop_last());
        if d.contains(s.last()) {
            d
        } else {
            d.push(s.last())
        }
    }
}

/// What parsing one card line yields: the label `Card`, the card
/// number, a colon, then winning numbers and held numbers split by a
/// bar, repeats dropped.
pub open spec fn card_of(l: Seq<char>) -> Option<(usize, Seq<usize>, Seq<usize>)> {
    let parts = crate::text::split_on(l, ':');
    if parts.len() != 2 {
        None
    } else {
        let toks = crate::text::tokens_of(parts[0]);
        if toks.len() != 2 || toks[0] != "Card"@ {
            None
        } else {
            match crate::text::parse_usize_spec(toks[1]) {
                Some(id) => {
                    let halves = crate::text::split_on(parts[1], '|');
                    if halves.len() != 2 {
                        None
                    } else {
                        Some(
                            (
                                id,
                                dedup_first(kept_usize(crate::text::tokens_of(halves[0]))),
                                dedup_first(kept_usize(crate::text::tokens_of(halves[1]))),
                            ),
                        )
                    }
                },
                None => None,
            }
        }
    }
}

/// What parsing the whole table yields, one card per line.
pub open spec fn cards_of(s: Seq<char>) -> Option<Seq<(usize, Seq<usize>, Seq<usize>)>> {
    cards_of_lines(crate::text::lines_of(s))
}

pub open spec fn cards_of_lines(ls: Seq<Seq<char>>) -> Option<Seq<(usize, Seq<usize>, Seq<usize>)>>
    decreases ls.len(),
{
    if ls.len() == 0 {
        Some(Seq::empty())
    } else {
        match card_of(ls[0]) {
            Some(c) => match cards_of_lines(ls.drop_first()) {
                Some(rest) => Some(seq![c] + rest),
                None => None,
            },
            None => None,
        }
    }
}

/// Whether `x` stands in `v`.
fn vec_contains(v: &Vec<usize>, x: usize) -> (r: bool)
    ensures
        r == v@.contains(x),
{
    let mut i: usize = 0;
    while i < v.len()
        invariant
            i <= v@.len(),
            forall|k: int| 0 <= k < i ==> v@[k] != x,
        decreases v@.len() - i,
    {
        if v[i] == x {
            return true;
        }
        i = i + 1;
    }
    proof {
        if v@.contains(x) {
            let k = choose|k: int| 0 <= k < v@.len() && v@[k] == x;
        }
    }
    false
}

/// Parses tokens as positive numbers and drops repeats.
#[verifier::loop_isolation(false)]
fn kept_dedup(toks: &Vec<Vec<char>>) -> (r: Vec<usize>)
    ensures
        r@ == dedup_first(kept_usize(toks.deep_view())),
{
    let ghost tks = toks.deep_view();
    let mut out: Vec<usize> = Vec::new();
    let mut j: usize = 0;
    proof {
        assert(tks.take(0) =~= Seq::<Seq<char>>::empty());
    }
    while j < toks.len()
        invariant
            j <= tks.len(),
            out@ == dedup_first(kept_usize(tks.take(j as int))),
        decreases tks.len() - j,
    {
        proof {
            assert(tks.take(j as int + 1).drop_last() =~= tks.take(j as int));
            assert(tks.take(j as int + 1).last() == tks[j as int]);
            assert(toks@[j as int]@ =~= tks[j as int]);
        }
        match crate::text::parse_usize(&toks[j]) {
            Some(v) => {
                if v > 0 {
                    proof {
                        assert(kept_usize(tks.take(j as int + 1)) == kept_usize(
                            tks.take(j as int),
                        ).push(v));
                        assert(kept_usize(tks.take(j as int)).push(v).drop_last() =~= kept_usize(
                            tks.take(j as int),
                        ));
                        assert(kept_usize(tks.take(j as int)).push(v).last() == v);
                    }
                    if !vec_contains(&out, v) {
                        out.push(v);
                    }
                }
            },
            None => {},
        }
        j = j + 1;
    }
    proof {
        assert(tks.take(tks.len() as int) =~= tks);
    }
    out
}

impl Card {
    /// Parses one card line.
    pub fn from_line(line: &str) -> (r: Option<Card>)
        ensures
            match (r, card_of(line@)) {
                (Some(c), Some(t)) => c.id == t.0 && c.winning_nums@ == t.1 && c.your_nums@
                    == t.2,
                (None, None) => true,
                _ => false,
            },
    {
        let chars = crate::text::chars_of(line);
        card_from_chars(&chars)
    }

    /// How many of the card's numbers are winning ones.
    pub fn num_winning(&self) -> (r: usize)
        ensures
            r == count_in(self.your_nums@, self.winning_nums@),
            r <= self.your_nums@.len(),
    {
        let ghost yours = self.your_nums@;
        let mut count: usize = 0;
        let mut k: usize = 0;
        proof {
            assert(yours.take(0) =~= Seq::<usize>::empty());
        }
        while k < self.your_nums.len()
            invariant
                k <= yours.len(),
                yours == self.your_nums@,
                count == count_in(yours.take(k as int), self.winning_nums@),
                count <= k,
            decreases yours.len() - k,
        {
            proof {
                assert(yours.take(k as int + 1).drop_last() =~= yours.take(k as int));
                assert(yours.take(k as int + 1).last() == yours[k as int]);
            }
            if vec_contains(&self.winning_nums, self.your_nums[k]) {
                count = count + 1;
            }
            k = k + 1;
        }
        proof {
            assert(yours.take(yours.len() as int) =~= yours);
            lemma_count_in_le(yours, self.winning_nums@);
        }
        count
    }

    /// The card's points: nothing without a match, else two to the
    /// power of one less than the number of matches.
    #[verifier::loop_isolation(false)]
    pub fn points_worth(&self) -> (r: u32)
        requires
            count_in(self.your_nums@, self.winning_nums@) <= 32,
        ensures
            r == card_points(count_in(self.your_nums@, self.winning_nums@)),
    {
        let num_winning = self.num_winning();
        if num_winning == 0 {
            return 0;
        }
        let mut p: u32 = 1;
        let mut k: usize = 0;
        while k < num_winning - 1
            invariant
                k <= num_winning - 1,
                p == pow2(k as nat),
            decreases num_winning - 1 - k,
        {
            proof {
                lemma_pow2_le(k as nat + 1, 31);
                reveal_with_fuel(pow2, 33);
                assert(pow2(31) == 0x80000000);
            }
            p = p * 2;
            k = k + 1;
        }
        p
    }
}

/// The points one match count is worth.
pub open spec fn card_points(nw: int) -> int {
    if nw <= 0 {
        0
    } else {
        pow2((nw - 1) as nat)
    }
}

pub proof fn lemma_count_in_le(yours: Seq<usize>, winning: Seq<usize>)
    ensures
        0 <= count_in(yours, winning) <= yours.len(),
    decreases yours.len(),
{
    if yours.len() > 0 {
        lemma_count_in_le(yours.drop_last(), winning);
    }
}

#[verifier::loop_isolation(false)]
fn card_from_chars(chars: &Vec<char>) -> (r: Option<Card>)
    ensures
        match (r, card_of(chars@)) {
            (Some(c), Some(t)) => c.id == t.0 && c.winning_nums@ == t.1 && c.your_nums@ == t.2,
            (None, None) => true,
            _ => false,
        },
{
    let parts = crate::text::split_on_chars(chars, ':');
    let ghost ps = crate::text::split_on(chars@, ':');
    if parts.len() != 2 {
        return None;
    }
    proof {
        assert(parts@[0]@ =~= parts.deep_view()[0]);
        assert(parts@[1]@ =~= parts.deep_view()[1]);
    }
    let toks = crate::text::tokens_of_chars(&parts[0]);
    if toks.len() != 2 {
        return None;
    }
    proof {
        assert(toks@[0]@ =~= toks.deep_view()[0]);
        assert(toks@[1]@ =~= toks.deep_view()[1]);
    }
    if !crate::text::chars_eq(&toks[0], "Card") {
        return None;
    }
    let id = match crate::text::parse_usize(&toks[1]) {
        Some(v) => v,
        None => {
            return None;
        },
    };
    let halves = crate::text::split_on_chars(&parts[1], '|');
    if halves.len() != 2 {
        return None;
    }
    proof {
        assert(halves@[0]@ =~= halves.deep_view()[0]);
        assert(halves@[1]@ =~= halves.deep_view()[1]);
    }
    let winning_toks = crate::text::tokens_of_chars(&halves[0]);
    let your_toks = crate::text::tokens_of_chars(&halves[1]);
    let winning_nums = kept_dedup(&winning_toks);
    let your_nums = kept_dedup(&your_toks);
    Some(Card { id, winning_nums, your_nums })
}

/// Parses the card table, one card per line.
#[verifier::loop_isolation(false)]
pub fn parse_input(text: &str) -> (r: Option<Vec<Card>>)
    ensures
        match (r, cards_of(text@)) {
            (Some(v), Some(cs)) => {
                &&& v@.len() == cs.len()
                &&& forall|k: int|
                    0 <= k < cs.len() ==> (#[trigger] v@[k]).id == cs[k].0 && v@[k].winning_nums@
                        == cs[k].1 && v@[k].your_nums@ == cs[k].2
            },
            (None, None) => true,
            _ => false,
        },
{
    let chars = crate::text::chars_of(text);
    let lines = crate::text::lines_of_chars(&chars);
    let ghost ls = crate::text::lines_of(text@);
    let mut cards: Vec<Card> = Vec::new();
    let mut j: usize = 0;
    proof {
        assert(ls.skip(0) =~= ls);
    }
    while j < lines.len()
        invariant
            j <= ls.len(),
            match cards_of_lines(ls.skip(j as int)) {
                Some(rest) => match cards_of_lines(ls) {
                    Some(all) => {
                        &&& all == card_tuples(cards@) + rest
                        &&& cards@.len() + rest.len() == all.len()
                        &&& forall|k: int|
                            0 <= k < cards@.len() ==> (#[trigger] cards@[k]).id == all[k].0
                                && cards@[k].winning_nums@ == all[k].1 && cards@[k].your_nums@
                                == all[k].2
                    },
                    None => false,
                },
                None => cards_of_lines(ls) is None,
            },
        decreases ls.len() - j,
    {
        proof {
            assert(ls.skip(j as int)[0] == ls[j as int]);
            assert(ls.skip(j as int).drop_first() =~= ls.skip(j as int + 1));
            assert(lines@[j as int]@ =~= lines.deep_view()[j as int]);
        }
        let ghost tuples0 = card_tuples(cards@);
        match card_from_chars(&lines[j]) {
            Some(c) => {
                let ghost tup = card_of(ls[j as int])->Some_0;
                cards.push(c);
                proof {
                    assert(card_tuples(cards@) =~= tuples0.push(tup));
                    match cards_of_lines(ls.skip(j as int + 1)) {
                        Some(rest) => {
                            assert(tuples0 + (seq![tup] + rest) =~= card_tuples(cards@) + rest);
                        },
                        None => {},
                    }
                }
            },
            None => {
                return None;
            },
        }
        j = j + 1;
    }
    proof {
        assert(ls.skip(ls.len() as int) =~= Seq::<Seq<char>>::empty());
        assert(card_tuples(cards@) + Seq::<(usize, Seq<usize>, Seq<usize>)>::empty() =~=
        card_tuples(cards@));
    }
    Some(cards)
}

/// The id and number lists of each card, in order.
pub open spec fn card_tuples(cs: Seq<Card>) -> Seq<(usize, Seq<usize>, Seq<usize>)> {
    cs.map_values(|c: Card| (c.id, c.winning_nums@, c.your_nums@))
}

/// Total points over the cards.
pub open spec fn points_sum(cs: Seq<(usize, Seq<usize>, Seq<usize>)>) -> int
    decreases cs.len(),
{
    if cs.len() == 0 {
        0
    } else {
        points_sum(cs.drop_last()) + card_points(count_in(cs.last().2, cs.last().1))
    }
}

pub proof fn lemma_points_sum_nonneg(cs: Seq<(usize, Seq<usize>, Seq<usize>)>)
    ensures
        points_sum(cs) >= 0,
    decreases cs.len(),
{
    if cs.len() > 0 {
        lemma_points_sum_nonneg(cs.drop_last());
        let nw = count_in(cs.last().2, cs.last().1);
        if nw > 0 {
            lemma_pow2_le((nw - 1) as nat, (nw - 1) as nat);
        }
    }
}

pub proof fn lemma_points_sum_prefix(cs: Seq<(usize, Seq<usize>, Seq<usize>)>, n: int)
    requires
        0 <= n <= cs.len(),
    ensures
        0 <= points_sum(cs.take(n)) <= points_sum(cs),
    decreases cs.len() - n,
{
    lemma_points_sum_nonneg(cs.take(n));
    if n < cs.len() {
        assert(cs.take(n + 1).drop_last() =~= cs.take(n));
        assert(cs.take(n + 1).last() == cs[n]);
        let nw = count_in(cs[n].2, cs[n].1);
        if nw > 0 {
            lemma_pow2_le((nw - 1) as nat, (nw - 1) as nat);
        }
        lemma_points_sum_prefix(cs, n + 1);
    } else {
        assert(cs.take(n) =~= cs);
    }
}

/// Total points of the card table; nothing when a line is malformed.
#[verifier::loop_isolation(false)]
pub fn solve(input: &str) -> (r: Option<u32>)
    requires
        match cards_of(input@) {
            Some(cs) => {
                &&& forall|k: int| 0 <= k < cs.len() ==> count_in((#[trigger] cs[k]).2, cs[k].1)
                    <= 32
                &&& points_sum(cs) <= u32::MAX
            },
            None => true,
        },
    ensures
        match cards_of(input@) {
            Some(cs) => r is Some && r->Some_0 == points_sum(cs),
            None => r is None,
        },
{
    let cards = match parse_input(input) {
        Some(v) => v,
        None => {
            return None;
        },
    };
    let ghost cs = cards_of(input@)->Some_0;
    let mut sum: u32 = 0;
    let mut k: usize = 0;
    proof {
        assert(cs.take(0) =~= Seq::<(usize, Seq<usize>, Seq<usize>)>::empty());
    }
    while k < cards.len()
        invariant
            k <= cs.len(),
            sum == points_sum(cs.take(k as int)),
        decreases cs.len() - k,
    {
        proof {
            assert(cs.take(k as int + 1).drop_last() =~= cs.take(k as int));
            assert(cs.take(k as int + 1).last() == cs[k as int]);
            lemma_points_sum_prefix(cs, k as int + 1);
            lemma_points_sum_prefix(cs, k as int);
        }
        let p = cards[k].points_worth();
        sum = sum + p;
        k = k + 1;
    }
    proof {
        assert(cs.take(cs.len() as int) =~= cs);
    }
    Some(sum)
}

/// The copy counts and running total after handing out copies of cards
/// `lo` to one before `hi`, each getting `this` more copies, a card
/// not seen yet starting at one plus the copies; nothing on overflow.
pub open spec fn add_copies(
    m: Map<usize, usize>,
    total: int,
    this: int,
    lo: int,
    hi: int,
) -> Option<(Map<usize, usize>, int)>
    decreases hi - lo,
{
    if lo >= hi {
        Some((m, total))
    } else if lo > usize::MAX {
        None
    } else {
        let present = m.dom().contains(lo as usize);
        let v = (if present {
            m[lo as usize] as int
        } else {
            1
        }) + this;
        let delta = if present {
            this
        } else {
            this + 1
        };
        if v <= usize::MAX && total + delta <= usize::MAX {
            add_copies(m.insert(lo as usize, v as usize), total + delta, this, lo + 1, hi)
        } else {
            None
        }
    }
}

/// The copy counts and running total after processing the cards in
/// order; nothing when an id range or a count overflows.
pub open spec fn star2_from(
    cs: Seq<(usize, Seq<usize>, Seq<usize>)>,
    m: Map<usize, usize>,
    total: int,
) -> Option<(Map<usize, usize>, int)>
    decreases cs.len(),
{
    if cs.len() == 0 {
        Some((m, total))
    } else {
        let id = cs[0].0;
        let w = count_in(cs[0].2, cs[0].1);
        let present = m.dom().contains(id);
        let this = if present {
            m[id] as int
        } else {
            1
        };
        let m1 = m.insert(
            id,
            if present {
                m[id]
            } else {
                1usize
            },
        );
        let total1 = total + if present {
            0int
        } else {
            1int
        };
        if id + 1 <= usize::MAX && id + w <= usize::MAX && total1 <= usize::MAX {
            match add_copies(m1, total1, this, id + 1, id + w + 1) {
                Some(p) => star2_from(cs.drop_first(), p.0, p.1),
                None => None,
            }
        } else {
            None
        }
    }
}

/// Total number of cards held once every copy has been handed out;
/// nothing when a line is malformed or a count overflows.
#[verifier::loop_isolation(false)]
pub fn solve_star2(input: &str) -> (r: Option<u32>)
    requires
        match cards_of(input@) {
            Some(cs) => star2_from(cs, Map::empty(), 0) is Some && star2_from(
                cs,
                Map::empty(),
                0,
            )->Some_0.1 <= u32::MAX,
            None => true,
        },
    ensures
        match cards_of(input@) {
            Some(cs) => r is Some && r->Some_0 == star2_from(cs, Map::empty(), 0)->Some_0.1,
            None => r is None,
        },
{
    let cards = match parse_input(input) {
        Some(v) => v,
        None => {
            return None;
        },
    };
    let ghost cs = cards_of(input@)->Some_0;
    let mut counts: HashMap<usize, usize> = HashMap::new();
    let mut total: usize = 0;
    let mut k: usize = 0;
    proof {
        assert(cs.skip(0) =~= cs);
        assert(counts@ =~= Map::<usize, usize>::empty());
    }
    while k < cards.len()
        invariant
            k <= cs.len(),
            star2_from(cs, Map::empty(), 0) == star2_from(cs.skip(k as int), counts@, total as int),
        decreases cs.len() - k,
    {
        let card = &cards[k];
        let w = card.num_winning();
        proof {
            assert(cs.skip(k as int)[0] == cs[k as int]);
            assert(cs.skip(k as int).drop_first() =~= cs.skip(k as int + 1));
            assert(w == count_in(cs[k as int].2, cs[k as int].1));
        }
        let mut this: usize = 1;
        let mut present = false;
        match counts.get(&card.id) {
            Some(c) => {
                this = *c;
                present = true;
            },
            None => {},
        }
        let ghost m0 = counts@;
        let ghost t0 = total as int;
        if !present {
            counts.insert(card.id, 1);
            total = total + 1;
        } else {
            proof {
                assert(m0.insert(card.id, this) =~= m0);
            }
        }
        proof {
            assert(star2_from(cs.skip(k as int), m0, t0) is Some);
            assert(cs[k as int].0 + 1 <= usize::MAX);
            assert(cs[k as int].0 + count_in(cs[k as int].2, cs[k as int].1) <= usize::MAX);
        }
        let mut o: usize = 0;
        while o < w
            invariant
                o <= w,
                add_copies(m0.insert(card.id, if m0.dom().contains(card.id) {
                    m0[card.id]
                } else {
                    1usize
                }), t0 + (if m0.dom().contains(card.id) {
                    0int
                } else {
                    1int
                }), this as int, card.id + 1, card.id + w + 1) == add_copies(
                    counts@,
                    total as int,
                    this as int,
                    card.id + 1 + o,
                    card.id + w + 1,
                ),
                this as int == (if m0.dom().contains(card.id) {
                    m0[card.id] as int
                } else {
                    1int
                }),
            decreases w - o,
        {
            let cid: usize = card.id + 1 + o;
            let ghost mc = counts@;
            let ghost tc = total as int;
            let mut cur: usize = 0;
            let mut has = false;
            match counts.get(&cid) {
                Some(c) => {
                    cur = *c;
                    has = true;
                },
                None => {},
            }
            proof {
                assert(add_copies(mc, tc, this as int, cid as int, card.id + w + 1) is Some);
            }
            if has {
                counts.insert(cid, cur + this);
                total = total + this;
            } else {
                counts.insert(cid, this + 1);
                total = total + (this + 1);
            }
            o = o + 1;
        }
        k = k + 1;
    }
    proof {
        assert(cs.skip(cs.len() as int) =~= Seq::<(usize, Seq<usize>, Seq<usize>)>::empty());
    }
    proof {
        assert(total as int == star2_from(cs, Map::empty(), 0)->Some_0.1);
    }
    Some(total as u32)
}

} // verus!