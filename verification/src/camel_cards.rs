//! Poker-hand ranking with jokers: hands of five cards are classified by
//! their best shape, jokers counting as copies of the most frequent
//! rank, and compared first by shape, then card by card.

use core::cmp::Ordering;
use vstd::prelude::*;

verus! {

/// One card, as a numeric rank; a joker is rank one.
#[derive(Debug, PartialEq, Eq, PartialOrd, Ord, Clone, Copy)]
pub struct Card {
    pub rank: u8,
}

/// The shapes a hand can take, weakest first.
#[derive(Debug, PartialEq, Eq, PartialOrd, Ord, Clone, Copy)]
pub enum HandType {
    HighCard,
    OnePair,
    TwoPair,
    ThreeOfAKind,
    FullHouse,
    FourOfAKind,
    FiveOfAKind,
}

/// The numeric strength of a shape, matching the declaration order.
pub open spec fn type_rank_spec(ht: HandType) -> int {
    match ht {
        HandType::HighCard => 0,
        HandType::OnePair => 1,
        HandType::TwoPair => 2,
        HandType::ThreeOfAKind => 3,
        HandType::FullHouse => 4,
        HandType::FourOfAKind => 5,
        HandType::FiveOfAKind => 6,
    }
}

/// The numeric strength of a shape.
pub fn type_rank(ht: HandType) -> (r: u8)
    ensures
        r == type_rank_spec(ht),
{
    match ht {
        HandType::HighCard => 0,
        HandType::OnePair => 1,
        HandType::TwoPair => 2,
        HandType::ThreeOfAKind => 3,
        HandType::FullHouse => 4,
        HandType::FourOfAKind => 5,
        HandType::FiveOfAKind => 6,
    }
}

/// A character that names a card.
pub open spec fn is_card_char(c: char) -> bool {
    (('2' as u32) <= (c as u32) && (c as u32) <= ('9' as u32)) || c == 'T' || c == 'J' || c == 'Q'
        || c == 'K' || c == 'A'
}

/// The rank a card character names.
pub open spec fn rank_of(c: char) -> u8 {
    if ('2' as u32) <= (c as u32) && (c as u32) <= ('9' as u32) {
        (c as u32 - '0' as u32) as u8
    } else if c == 'T' {
        10
    } else if c == 'J' {
        1
    } else if c == 'Q' {
        12
    } else if c == 'K' {
        13
    } else if c == 'A' {
        14
    } else {
        0
    }
}

impl Card {
    /// Reads one card character; the joker `J` ranks lowest.
    pub fn from_char(c: char) -> (r: Self)
        requires
            is_card_char(c),
        ensures
            r.rank == rank_of(c),
    {
        let code: u32 = c as u32;
        let rank: u8 = if code >= '2' as u32 && code <= '9' as u32 {
            (code - '0' as u32) as u8
        } else if c == 'T' {
            10
        } else if c == 'J' {
            1
        } else if c == 'Q' {
            12
        } else if c == 'K' {
            13
        } else {
            14
        };
        Self { rank }
    }
}

/// How many cards hold rank `r`.
pub open spec fn count_rank(cards: Seq<Card>, r: int) -> int
    decreases cards.len(),
{
    if cards.len() == 0 {
        0
    } else {
        count_rank(cards.drop_last(), r) + (if cards.last().rank == r {
            1int
        } else {
            0int
        })
    }
}

/// The largest non-joker count among ranks from `lo` up.
pub open spec fn max_count_from(cards: Seq<Card>, lo: int) -> int
    decreases 15 - lo,
{
    if lo >= 15 {
        0
    } else {
        let c = count_rank(cards, lo);
        let rest = max_count_from(cards, lo + 1);
        if c >= rest {
            c
        } else {
            rest
        }
    }
}

/// How many ranks from `lo` up hold at least a pair.
pub open spec fn n_pairs_from(cards: Seq<Card>, lo: int) -> int
    decreases 15 - lo,
{
    if lo >= 15 {
        0
    } else {
        n_pairs_from(cards, lo + 1) + (if count_rank(cards, lo) >= 2 {
            1int
        } else {
            0int
        })
    }
}

/// The shape of a hand: jokers join the most frequent rank; the shape
/// then follows from that top count and how many ranks hold pairs.
pub open spec fn hand_type_spec(cards: Seq<Card>) -> HandType {
    let top = max_count_from(cards, 2) + count_rank(cards, 1);
    let pairs = n_pairs_from(cards, 2);
    if top >= 5 {
        HandType::FiveOfAKind
    } else if top == 4 {
        HandType::FourOfAKind
    } else if top == 3 {
        if pairs >= 2 {
            HandType::FullHouse
        } else {
            HandType::ThreeOfAKind
        }
    } else if top == 2 {
        if pairs >= 2 {
            HandType::TwoPair
        } else {
            HandType::OnePair
        }
    } else {
        HandType::HighCard
    }
}

/// Classifies a hand by counting each rank, handing the jokers to the
/// most frequent other rank, and reading the shape off the counts.
#[verifier::loop_isolation(false)]
pub fn find_type(cards: &Vec<Card>) -> (r: HandType)
    requires
        cards@.len() == 5,
        forall|k: int| 0 <= k < cards@.len() ==> (#[trigger] cards@[k]).rank < 15,
    ensures
        r == hand_type_spec(cards@),
{
    let ghost cs = cards@;
    let mut ranks: Vec<usize> = vec![0, 0, 0, 0, 0, 0, 0, 0, 0, 0, 0, 0, 0, 0, 0];
    let mut k: usize = 0;
    proof {
        assert(cs.take(0) =~= Seq::<Card>::empty());
    }
    while k < cards.len()
        invariant
            k <= cs.len(),
            ranks@.len() == 15,
            forall|r: int| 0 <= r < 15 ==> ranks@[r] == count_rank(cs.take(k as int), r),
            forall|r: int| 0 <= r < 15 ==> ranks@[r] <= k,
        decreases cs.len() - k,
    {
        let card = cards[k];
        proof {
            assert(cs.take(k as int + 1).drop_last() =~= cs.take(k as int));
            assert(cs.take(k as int + 1).last() == cs[k as int]);
        }
        let idx: usize = card.rank as usize;
        let cur = ranks[idx];
        ranks.set(idx, cur + 1);
        k = k + 1;
    }
    proof {
        assert(cs.take(cs.len() as int) =~= cs);
    }
    let jokers = ranks[1];
    proof {
        lemma_count_rank_le(cs, 1);
        lemma_max_count_nonneg(cs, 2);
    }
    let mut best: usize = 0;
    let mut pairs: usize = 0;
    let mut r: usize = 2;
    while r < 15
        invariant
            2 <= r <= 15,
            ranks@.len() == 15,
            forall|x: int| 0 <= x < 15 ==> ranks@[x] == count_rank(cs, x),
            max_count_from(cs, 2) == (if best >= max_count_from(cs, r as int) {
                best as int
            } else {
                max_count_from(cs, r as int)
            }),
            n_pairs_from(cs, 2) == pairs + n_pairs_from(cs, r as int),
            best <= cs.len(),
            pairs <= r,
        decreases 15 - r,
    {
        let c = ranks[r];
        proof {
            lemma_count_rank_le(cs, r as int);
            lemma_max_count_nonneg(cs, r as int + 1);
        }
        if c > best {
            best = c;
        }
        if c >= 2 {
            pairs = pairs + 1;
        }
        r = r + 1;
    }
    proof {
        assert(max_count_from(cs, 15) == 0);
        assert(n_pairs_from(cs, 15) == 0);
        assert(best == max_count_from(cs, 2));
        assert(pairs == n_pairs_from(cs, 2));
        lemma_count_rank_le(cs, 1);
    }
    let top: usize = best + jokers;
    if top >= 5 {
        HandType::FiveOfAKind
    } else if top == 4 {
        HandType::FourOfAKind
    } else if top == 3 {
        if pairs >= 2 {
            HandType::FullHouse
        } else {
            HandType::ThreeOfAKind
        }
    } else if top == 2 {
        if pairs >= 2 {
            HandType::TwoPair
        } else {
            HandType::OnePair
        }
    } else {
        HandType::HighCard
    }
}

pub proof fn lemma_max_count_nonneg(cards: Seq<Card>, lo: int)
    ensures
        max_count_from(cards, lo) >= 0,
    decreases 15 - lo,
{
    if lo < 15 {
        lemma_count_rank_le(cards, lo);
        lemma_max_count_nonneg(cards, lo + 1);
    }
}

pub proof fn lemma_count_rank_le(cards: Seq<Card>, r: int)
    ensures
        0 <= count_rank(cards, r) <= cards.len(),
    decreases cards.len(),
{
    if cards.len() > 0 {
        lemma_count_rank_le(cards.drop_last(), r);
    }
}

/// One hand: its five cards, its bid, and its shape.
#[derive(Debug)]
pub struct Hand {
    pub cards: Vec<Card>,
    pub bid: usize,
    pub hand_type: HandType,
}

/// The ranks of a list of cards, in order.
pub open spec fn ranks_of_cards(cs: Seq<Card>) -> Seq<u8> {
    cs.map_values(|c: Card| c.rank)
}

/// What parsing one hand line yields: a token of exactly five card
/// characters, then the bid.
pub open spec fn hand_of(l: Seq<char>) -> Option<(Seq<char>, usize)> {
    let toks = crate::text::tokens_of(l);
    if toks.len() != 2 {
        None
    } else if toks[0].len() != 5 {
        None
    } else if !(forall|k: int| 0 <= k < 5 ==> is_card_char(#[trigger] toks[0][k])) {
        None
    } else {
        match crate::text::parse_usize_spec(toks[1]) {
            Some(bid) => Some((toks[0], bid)),
            None => None,
        }
    }
}

impl Hand {
    /// Parses one hand line; the shape is computed on construction.
    #[verifier::loop_isolation(false)]
    pub fn from_line(line: &str) -> (r: Option<Hand>)
        ensures
            match (r, hand_of(line@)) {
                (Some(h), Some(t)) => {
                    &&& h.cards@.len() == 5
                    &&& forall|k: int| 0 <= k < 5 ==> (#[trigger] h.cards@[k]).rank == rank_of(
                        t.0[k],
                    )
                    &&& h.bid == t.1
                    &&& h.hand_type == hand_type_spec(h.cards@)
                },
                (None, None) => true,
                _ => false,
            },
    {
        let chars = crate::text::chars_of(line);
        let toks = crate::text::tokens_of_chars(&chars);
        let ghost tks = crate::text::tokens_of(line@);
        if toks.len() != 2 {
            return None;
        }
        proof {
            assert(toks@[0]@ =~= toks.deep_view()[0]);
            assert(toks@[1]@ =~= toks.deep_view()[1]);
        }
        let hand_tok = &toks[0];
        if hand_tok.len() != 5 {
            return None;
        }
        let mut cards: Vec<Card> = Vec::new();
        let mut k: usize = 0;
        while k < 5
            invariant
                k <= 5,
                hand_tok@.len() == 5,
                hand_tok@ == tks[0],
                cards@.len() == k,
                forall|x: int| 0 <= x < k ==> is_card_char(#[trigger] tks[0][x]),
                forall|x: int|
                    0 <= x < k ==> (#[trigger] cards@[x]).rank == rank_of(tks[0][x]),
            decreases 5 - k,
        {
            let c = hand_tok[k];
            let code: u32 = c as u32;
            let is_card = (code >= '2' as u32 && code <= '9' as u32) || c == 'T' || c == 'J' || c
                == 'Q' || c == 'K' || c == 'A';
            if !is_card {
                proof {
                    assert(!is_card_char(tks[0][k as int]));
                }
                return None;
            }
            cards.push(Card::from_char(c));
            k = k + 1;
        }
        let bid = match crate::text::parse_usize(&toks[1]) {
            Some(v) => v,
            None => {
                return None;
            },
        };
        proof {
            assert(forall|x: int| 0 <= x < cards@.len() ==> (#[trigger] cards@[x]).rank < 15);
        }
        let hand_type = find_type(&cards);
        Some(Hand { cards, bid, hand_type })
    }
}

/// Card-by-card comparison of two rank lists, up to five cards.
pub open spec fn cards_cmp(x: Seq<u8>, y: Seq<u8>, i: int) -> Ordering
    decreases 5 - i,
{
    if i >= 5 || i >= x.len() || i >= y.len() {
        Ordering::Equal
    } else if x[i] == y[i] {
        cards_cmp(x, y, i + 1)
    } else if x[i] < y[i] {
        Ordering::Less
    } else {
        Ordering::Greater
    }
}

/// Full comparison of two hands: by shape first, then card by card.
pub open spec fn hand_cmp_spec(a: Hand, b: Hand) -> Ordering {
    if type_rank_spec(a.hand_type) < type_rank_spec(b.hand_type) {
        Ordering::Less
    } else if type_rank_spec(a.hand_type) > type_rank_spec(b.hand_type) {
        Ordering::Greater
    } else {
        cards_cmp(ranks_of_cards(a.cards@), ranks_of_cards(b.cards@), 0)
    }
}

impl PartialEq for Hand {
    /// Two hands are the same when they hold the same cards.
    #[verifier::loop_isolation(false)]
    fn eq(&self, other: &Self) -> (r: bool) {
        if self.cards.len() != other.cards.len() {
            proof {
                assert(ranks_of_cards(self.cards@).len() != ranks_of_cards(other.cards@).len());
            }
            return false;
        }
        let n = self.cards.len();
        let mut k: usize = 0;
        while k < n
            invariant
                n == self.cards@.len(),
                n == other.cards@.len(),
                k <= n,
                forall|x: int| 0 <= x < k ==> (#[trigger] self.cards@[x]).rank
                    == other.cards@[x].rank,
            decreases n - k,
        {
            if self.cards[k].rank != other.cards[k].rank {
                proof {
                    assert(ranks_of_cards(self.cards@)[k as int] != ranks_of_cards(
                        other.cards@,
                    )[k as int]);
                }
                return false;
            }
            k = k + 1;
        }
        proof {
            assert(ranks_of_cards(self.cards@) =~= ranks_of_cards(other.cards@));
        }
        true
    }
}

impl vstd::std_specs::cmp::PartialEqSpecImpl for Hand {
    open spec fn obeys_eq_spec() -> bool {
        true
    }

    open spec fn eq_spec(&self, other: &Hand) -> bool {
        ranks_of_cards(self.cards@) == ranks_of_cards(other.cards@)
    }
}

impl Eq for Hand {

}

impl PartialOrd for Hand {
    /// Orders hands by shape, then card by card; always defined.
    #[verifier::loop_isolation(false)]
    fn partial_cmp(&self, other: &Self) -> (r: Option<Ordering>) {
        let ta = type_rank(self.hand_type);
        let tb = type_rank(other.hand_type);
        if ta < tb {
            return Some(Ordering::Less);
        }
        if ta > tb {
            return Some(Ordering::Greater);
        }
        let mut k: usize = 0;
        while k < 5
            invariant
                k <= 5,
                cards_cmp(ranks_of_cards(self.cards@), ranks_of_cards(other.cards@), 0)
                    == cards_cmp(ranks_of_cards(self.cards@), ranks_of_cards(other.cards@), k as int),
            decreases 5 - k,
        {
            if k >= self.cards.len() || k >= other.cards.len() {
                proof {
                    assert(cards_cmp(
                        ranks_of_cards(self.cards@),
                        ranks_of_cards(other.cards@),
                        k as int,
                    ) == Ordering::Equal);
                }
                return Some(Ordering::Equal);
            }
            let ra = self.cards[k].rank;
            let rb = other.cards[k].rank;
            proof {
                assert(ranks_of_cards(self.cards@)[k as int] == ra);
                assert(ranks_of_cards(other.cards@)[k as int] == rb);
            }
            if ra < rb {
                return Some(Ordering::Less);
            }
            if ra > rb {
                return Some(Ordering::Greater);
            }
            k = k + 1;
        }
        Some(Ordering::Equal)
    }
}

impl vstd::std_specs::cmp::PartialOrdSpecImpl for Hand {
    open spec fn obeys_partial_cmp_spec() -> bool {
        true
    }

    open spec fn partial_cmp_spec(&self, other: &Hand) -> Option<Ordering> {
        Some(hand_cmp_spec(*self, *other))
    }
}

/// What parsing the whole input yields, one hand per line.
pub open spec fn hands_of(s: Seq<char>) -> Option<Seq<(Seq<char>, usize)>> {
    hands_of_lines(crate::text::lines_of(s))
}

pub open spec fn hands_of_lines(ls: Seq<Seq<char>>) -> Option<Seq<(Seq<char>, usize)>>
    decreases ls.len(),
{
    if ls.len() == 0 {
        Some(Seq::empty())
    } else {
        match hand_of(ls[0]) {
            Some(h) => match hands_of_lines(ls.drop_first()) {
                Some(rest) => Some(seq![h] + rest),
                None => None,
            },
            None => None,
        }
    }
}

/// Parses the whole input, one hand per line.
#[verifier::loop_isolation(false)]
pub fn parse_input(input: &str) -> (r: Option<Vec<Hand>>)
    ensures
        match (r, hands_of(input@)) {
            (Some(v), Some(hs)) => {
                &&& v@.len() == hs.len()
                &&& forall|k: int|
                    0 <= k < hs.len() ==> {
                        let h = #[trigger] v@[k];
                        &&& h.cards@.len() == 5
                        &&& (forall|x: int|
                            0 <= x < 5 ==> (#[trigger] h.cards@[x]).rank == rank_of(hs[k].0[x]))
                        &&& h.bid == hs[k].1
                        &&& h.hand_type == hand_type_spec(h.cards@)
                    }
            },
            (None, None) => true,
            _ => false,
        },
{
    let chars = crate::text::chars_of(input);
    let lines = crate::text::lines_of_chars(&chars);
    let ghost ls = crate::text::lines_of(input@);
    let mut hands: Vec<Hand> = Vec::new();
    let mut j: usize = 0;
    proof {
        assert(ls.skip(0) =~= ls);
    }
    while j < lines.len()
        invariant
            j <= ls.len(),
            match hands_of_lines(ls.skip(j as int)) {
                Some(rest) => match hands_of_lines(ls) {
                    Some(all) => {
                        &&& hands@.len() + rest.len() == all.len()
                        &&& forall|k: int|
                            hands@.len() <= k < all.len() ==> all[k] == rest[k - hands@.len()]
                        &&& forall|k: int|
                            0 <= k < hands@.len() ==> {
                                let h = #[trigger] hands@[k];
                                &&& h.cards@.len() == 5
                                &&& (forall|x: int|
                                    0 <= x < 5 ==> (#[trigger] h.cards@[x]).rank == rank_of(
                                        all[k].0[x],
                                    ))
                                &&& h.bid == all[k].1
                                &&& h.hand_type == hand_type_spec(h.cards@)
                            }
                    },
                    None => false,
                },
                None => hands_of_lines(ls) is None,
            },
        decreases ls.len() - j,
    {
        proof {
            assert(ls.skip(j as int)[0] == ls[j as int]);
            assert(ls.skip(j as int).drop_first() =~= ls.skip(j as int + 1));
            assert(lines@[j as int]@ =~= lines.deep_view()[j as int]);
        }
        let line_str = crate::text::string_from_chars(&lines[j]);
        match Hand::from_line(line_str.as_str()) {
            Some(h) => {
                hands.push(h);
            },
            None => {
                return None;
            },
        }
        j = j + 1;
    }
    proof {
        assert(ls.skip(ls.len() as int) =~= Seq::<Seq<char>>::empty());
    }
    Some(hands)
}

} // verus!