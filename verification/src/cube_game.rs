//! Cube-game feasibility: each game lists draws of red, green and blue
//! cubes; a game is possible when no draw exceeds the given supply.

use vstd::prelude::*;

verus! {

/// One draw of cubes: how many of each colour were shown.
#[derive(Debug)]
pub struct GameSet {
    pub red: usize,
    pub green: usize,
    pub blue: usize,
}

/// The count that `get` returns for a colour name.
pub open spec fn get_spec(g: GameSet, color: Seq<char>) -> usize {
    if color == "red"@ {
        g.red
    } else if color == "green"@ {
        g.green
    } else if color == "blue"@ {
        g.blue
    } else {
        0
    }
}

/// Whether one draw fits within the given supply.
pub open spec fn set_possible(g: GameSet, red: usize, green: usize, blue: usize) -> bool {
    g.red <= red && g.green <= green && g.blue <= blue
}

impl GameSet {
    /// The count drawn of the named colour, zero for unknown names.
    pub fn get(&self, color: &str) -> (r: usize)
        ensures
            r == get_spec(*self, color@),
    {
        if crate::text::str_eq(color, "red") {
            self.red
        } else if crate::text::str_eq(color, "green") {
            self.green
        } else if crate::text::str_eq(color, "blue") {
            self.blue
        } else {
            0
        }
    }

    /// Whether the draw fits within the given supply.
    pub fn is_possible(&self, red: usize, green: usize, blue: usize) -> (r: bool)
        ensures
            r == set_possible(*self, red, green, blue),
    {
        let mut possible = true;
        if self.get("red") > red {
            possible = false;
        }
        if self.get("green") > green {
            possible = false;
        }
        if self.get("blue") > blue {
            possible = false;
        }
        proof {
            reveal_strlit("red");
            reveal_strlit("green");
            reveal_strlit("blue");
            assert("red"@.len() == 3 && "green"@.len() == 5 && "blue"@.len() == 4);
            assert(get_spec(*self, "red"@) == self.red);
            assert(get_spec(*self, "green"@) == self.green);
            assert(get_spec(*self, "blue"@) == self.blue);
        }
        possible
    }

    /// The power of the draw: the product of its three counts.
    pub fn power(&self) -> (r: usize)
        requires
            self.red * self.green <= usize::MAX,
            self.red * self.green * self.blue <= usize::MAX,
        ensures
            r == self.red * self.green * self.blue,
    {
        let r = self.red;
        let g = self.green;
        let b = self.blue;
        r * g * b
    }
}

/// One game: its number and the draws made during it.
#[derive(Debug)]
pub struct Game {
    pub id: usize,
    pub sets: Vec<GameSet>,
}

/// The fewest cubes of each colour that make every draw possible.
pub open spec fn max_red(sets: Seq<GameSet>) -> usize
    decreases sets.len(),
{
    if sets.len() == 0 {
        0
    } else {
        let rest = max_red(sets.drop_last());
        if sets.last().red >= rest {
            sets.last().red
        } else {
            rest
        }
    }
}

pub open spec fn max_green(sets: Seq<GameSet>) -> usize
    decreases sets.len(),
{
    if sets.len() == 0 {
        0
    } else {
        let rest = max_green(sets.drop_last());
        if sets.last().green >= rest {
            sets.last().green
        } else {
            rest
        }
    }
}

pub open spec fn max_blue(sets: Seq<GameSet>) -> usize
    decreases sets.len(),
{
    if sets.len() == 0 {
        0
    } else {
        let rest = max_blue(sets.drop_last());
        if sets.last().blue >= rest {
            sets.last().blue
        } else {
            rest
        }
    }
}

impl Game {
    /// How many draws the game holds.
    pub fn len(&self) -> (r: usize)
        ensures
            r == self.sets@.len(),
    {
        self.sets.len()
    }

    /// The `i`-th draw.
    pub fn get(&self, i: usize) -> (r: &GameSet)
        requires
            i < self.sets@.len(),
        ensures
            *r == self.sets@[i as int],
    {
        &self.sets[i]
    }

    /// Whether every draw fits within the given supply.
    #[verifier::loop_isolation(false)]
    pub fn is_possible(&self, red: usize, green: usize, blue: usize) -> (r: bool)
        ensures
            r == forall|k: int|
                0 <= k < self.sets@.len() ==> set_possible(
                    #[trigger] self.sets@[k],
                    red,
                    green,
                    blue,
                ),
    {
        let mut possible = true;
        let mut k: usize = 0;
        while k < self.sets.len()
            invariant
                k <= self.sets@.len(),
                possible == forall|j: int|
                    0 <= j < k ==> set_possible(#[trigger] self.sets@[j], red, green, blue),
            decreases self.sets@.len() - k,
        {
            if !self.sets[k].is_possible(red, green, blue) {
                possible = false;
                proof {
                    assert(!set_possible(self.sets@[k as int], red, green, blue));
                }
                return false;
            }
            k = k + 1;
        }
        possible
    }

    /// The draw holding, per colour, the largest count seen in any draw:
    /// the fewest cubes with which the whole game is possible.
    #[verifier::loop_isolation(false)]
    pub fn min_possible(&self) -> (r: GameSet)
        ensures
            r.red == max_red(self.sets@),
            r.green == max_green(self.sets@),
            r.blue == max_blue(self.sets@),
    {
        let ghost sets = self.sets@;
        let mut r: usize = 0;
        let mut g: usize = 0;
        let mut b: usize = 0;
        let mut k: usize = 0;
        proof {
            assert(sets.take(0) =~= Seq::<GameSet>::empty());
        }
        while k < self.sets.len()
            invariant
                k <= sets.len(),
                r == max_red(sets.take(k as int)),
                g == max_green(sets.take(k as int)),
                b == max_blue(sets.take(k as int)),
            decreases sets.len() - k,
        {
            proof {
                assert(sets.take(k as int + 1).drop_last() =~= sets.take(k as int));
                assert(sets.take(k as int + 1).last() == sets[k as int]);
            }
            let s = &self.sets[k];
            if s.red > r {
                r = s.red;
            }
            if s.green > g {
                g = s.green;
            }
            if s.blue > b {
                b = s.blue;
            }
            k = k + 1;
        }
        proof {
            assert(sets.take(sets.len() as int) =~= sets);
        }
        GameSet { red: r, green: g, blue: b }
    }
}

/// The draw that one `count colour` piece adds to an accumulating draw;
/// an unknown colour changes nothing, a malformed piece fails.
pub open spec fn apply_piece(g: GameSet, piece: Seq<char>) -> Option<GameSet> {
    let toks = crate::text::tokens_of(piece);
    if toks.len() != 2 {
        None
    } else {
        match crate::text::parse_usize_spec(toks[0]) {
            Some(n) => if toks[1] == "red"@ {
                Some(GameSet { red: n, ..g })
            } else if toks[1] == "green"@ {
                Some(GameSet { green: n, ..g })
            } else if toks[1] == "blue"@ {
                Some(GameSet { blue: n, ..g })
            } else {
                Some(g)
            },
            None => None,
        }
    }
}

/// The draw that a comma-separated list of pieces describes.
pub open spec fn gameset_from(pieces: Seq<Seq<char>>, g: GameSet) -> Option<GameSet>
    decreases pieces.len(),
{
    if pieces.len() == 0 {
        Some(g)
    } else {
        match apply_piece(g, pieces[0]) {
            Some(g2) => gameset_from(pieces.drop_first(), g2),
            None => None,
        }
    }
}

/// What parsing one draw yields, starting from an empty draw.
pub open spec fn gameset_of(s: Seq<char>) -> Option<GameSet> {
    gameset_from(crate::text::split_on(s, ','), GameSet { red: 0, green: 0, blue: 0 })
}

/// What parsing the draws of one game yields.
pub open spec fn gamesets_of(parts: Seq<Seq<char>>) -> Option<Seq<GameSet>>
    decreases parts.len(),
{
    if parts.len() == 0 {
        Some(Seq::empty())
    } else {
        match gameset_of(parts[0]) {
            Some(g) => match gamesets_of(parts.drop_first()) {
                Some(rest) => Some(seq![g] + rest),
                None => None,
            },
            None => None,
        }
    }
}

/// What parsing one game line yields: the label `Game`, the game
/// number, a colon, then semicolon-separated draws.
pub open spec fn game_of(l: Seq<char>) -> Option<(usize, Seq<GameSet>)> {
    let parts = crate::text::split_on(l, ':');
    if parts.len() != 2 {
        None
    } else {
        let toks = crate::text::tokens_of(parts[0]);
        if toks.len() != 2 || toks[0] != "Game"@ {
            None
        } else {
            match crate::text::parse_usize_spec(toks[1]) {
                Some(id) => match gamesets_of(crate::text::split_on(parts[1], ';')) {
                    Some(sets) => Some((id, sets)),
                    None => None,
                },
                None => None,
            }
        }
    }
}

/// What parsing the whole input yields, one game per line.
pub open spec fn games_of(s: Seq<char>) -> Option<Seq<(usize, Seq<GameSet>)>> {
    games_of_lines(crate::text::lines_of(s))
}

pub open spec fn games_of_lines(ls: Seq<Seq<char>>) -> Option<Seq<(usize, Seq<GameSet>)>>
    decreases ls.len(),
{
    if ls.len() == 0 {
        Some(Seq::empty())
    } else {
        match game_of(ls[0]) {
            Some(gm) => match games_of_lines(ls.drop_first()) {
                Some(rest) => Some(seq![gm] + rest),
                None => None,
            },
            None => None,
        }
    }
}

#[verifier::loop_isolation(false)]
fn gameset_from_chars(chars: &Vec<char>) -> (r: Option<GameSet>)
    ensures
        r == gameset_of(chars@),
{
    let pieces = crate::text::split_on_chars(chars, ',');
    let ghost ps = crate::text::split_on(chars@, ',');
    let mut g = GameSet { red: 0, green: 0, blue: 0 };
    let mut j: usize = 0;
    proof {
        assert(ps.skip(0) =~= ps);
    }
    while j < pieces.len()
        invariant
            j <= ps.len(),
            gameset_of(chars@) == gameset_from(ps.skip(j as int), g),
        decreases ps.len() - j,
    {
        proof {
            assert(ps.skip(j as int)[0] == ps[j as int]);
            assert(ps.skip(j as int).drop_first() =~= ps.skip(j as int + 1));
            assert(pieces@[j as int]@ =~= pieces.deep_view()[j as int]);
        }
        let toks = crate::text::tokens_of_chars(&pieces[j]);
        if toks.len() != 2 {
            return None;
        }
        proof {
            assert(toks@[0]@ =~= toks.deep_view()[0]);
            assert(toks@[1]@ =~= toks.deep_view()[1]);
        }
        let n = match crate::text::parse_usize(&toks[0]) {
            Some(v) => v,
            None => {
                return None;
            },
        };
        if crate::text::chars_eq(&toks[1], "red") {
            g = GameSet { red: n, green: g.green, blue: g.blue };
        } else if crate::text::chars_eq(&toks[1], "green") {
            g = GameSet { red: g.red, green: n, blue: g.blue };
        } else if crate::text::chars_eq(&toks[1], "blue") {
            g = GameSet { red: g.red, green: g.green, blue: n };
        }
        j = j + 1;
    }
    proof {
        assert(ps.skip(ps.len() as int) =~= Seq::<Seq<char>>::empty());
    }
    Some(g)
}

impl Game {
    /// Parses one game line.
    #[verifier::loop_isolation(false)]
    pub fn from_line(line: &str) -> (r: Option<Game>)
        ensures
            match (r, game_of(line@)) {
                (Some(gm), Some(t)) => gm.id == t.0 && gm.sets@ == t.1,
                (None, None) => true,
                _ => false,
            },
    {
        let chars = crate::text::chars_of(line);
        let parts = crate::text::split_on_chars(&chars, ':');
        let ghost ps = crate::text::split_on(line@, ':');
        if parts.len() != 2 {
            return None;
        }
        proof {
            assert(parts@[0]@ =~= parts.deep_view()[0]);
            assert(parts@[1]@ =~= parts.deep_view()[1]);
        }
        let toks = crate::text::tokens_of_chars(&parts[0]);
        if toks.len() != 2 {
            return None;
        }
        proof {
            assert(toks@[0]@ =~= toks.deep_view()[0]);
            assert(toks@[1]@ =~= toks.deep_view()[1]);
        }
        if !crate::text::chars_eq(&toks[0], "Game") {
            return None;
        }
        let id = match crate::text::parse_usize(&toks[1]) {
            Some(v) => v,
            None => {
                return None;
            },
        };
        let set_parts = crate::text::split_on_chars(&parts[1], ';');
        let ghost sp = crate::text::split_on(ps[1], ';');
        let mut sets: Vec<GameSet> = Vec::new();
        let mut j: usize = 0;
        proof {
            assert(sp.skip(0) =~= sp);
        }
        while j < set_parts.len()
            invariant
                j <= sp.len(),
                match gamesets_of(sp.skip(j as int)) {
                    Some(rest) => gamesets_of(sp) == Some(sets@ + rest),
                    None => gamesets_of(sp) is None,
                },
            decreases sp.len() - j,
        {
            proof {
                assert(sp.skip(j as int)[0] == sp[j as int]);
                assert(sp.skip(j as int).drop_first() =~= sp.skip(j as int + 1));
                assert(set_parts@[j as int]@ =~= set_parts.deep_view()[j as int]);
            }
            let ghost sets0 = sets@;
            match gameset_from_chars(&set_parts[j]) {
                Some(g) => {
                    sets.push(g);
                    proof {
                        match gamesets_of(sp.skip(j as int + 1)) {
                            Some(rest) => {
                                assert(sets0 + (seq![g] + rest) =~= sets@ + rest);
                            },
                            None => {},
                        }
                    }
                },
                None => {
                    return None;
                },
            }
            j = j + 1;
        }
        proof {
            assert(sp.skip(sp.len() as int) =~= Seq::<Seq<char>>::empty());
            assert(sets@ + Seq::<GameSet>::empty() =~= sets@);
        }
        Some(Game { id, sets })
    }
}

/// Parses the whole input, one game per line.
#[verifier::loop_isolation(false)]
pub fn parse_input(str: &str) -> (r: Option<Vec<Game>>)
    ensures
        match (r, games_of(str@)) {
            (Some(v), Some(gs)) => {
                &&& v@.len() == gs.len()
                &&& forall|k: int|
                    0 <= k < gs.len() ==> (#[trigger] v@[k]).id == gs[k].0 && v@[k].sets@
                        == gs[k].1
            },
            (None, None) => true,
            _ => false,
        },
{
    let chars = crate::text::chars_of(str);
    let lines = crate::text::lines_of_chars(&chars);
    let ghost ls = crate::text::lines_of(str@);
    let mut games: Vec<Game> = Vec::new();
    let mut j: usize = 0;
    proof {
        assert(ls.skip(0) =~= ls);
    }
    while j < lines.len()
        invariant
            j <= ls.len(),
            match games_of_lines(ls.skip(j as int)) {
                Some(rest) => match games_of_lines(ls) {
                    Some(all) => {
                        &&& games@.len() + rest.len() == all.len()
                        &&& forall|k: int|
                            0 <= k < games@.len() ==> (#[trigger] games@[k]).id == all[k].0
                                && games@[k].sets@ == all[k].1
                        &&& forall|k: int|
                            games@.len() <= k < all.len() ==> all[k] == rest[k - games@.len()]
                    },
                    None => false,
                },
                None => games_of_lines(ls) is None,
            },
        decreases ls.len() - j,
    {
        proof {
            assert(ls.skip(j as int)[0] == ls[j as int]);
            assert(ls.skip(j as int).drop_first() =~= ls.skip(j as int + 1));
            assert(lines@[j as int]@ =~= lines.deep_view()[j as int]);
        }
        let line_str = crate::text::string_from_chars(&lines[j]);
        match Game::from_line(line_str.as_str()) {
            Some(gm) => {
                games.push(gm);
            },
            None => {
                return None;
            },
        }
        j = j + 1;
    }
    proof {
        assert(ls.skip(ls.len() as int) =~= Seq::<Seq<char>>::empty());
    }
    Some(games)
}

/// Whether the whole game fits within the given supply.
pub open spec fn game_possible(sets: Seq<GameSet>, red: usize, green: usize, blue: usize) -> bool {
    forall|k: int| 0 <= k < sets.len() ==> set_possible(#[trigger] sets[k], red, green, blue)
}

/// Sum of the ids of the games possible with 12 red, 13 green and 14
/// blue cubes.
pub open spec fn ids_sum(gs: Seq<(usize, Seq<GameSet>)>) -> int
    decreases gs.len(),
{
    if gs.len() == 0 {
        0
    } else {
        ids_sum(gs.drop_last()) + (if game_possible(gs.last().1, 12, 13, 14) {
            gs.last().0 as int
        } else {
            0int
        })
    }
}

/// The power of one game's minimal draw.
pub open spec fn power_of(sets: Seq<GameSet>) -> int {
    max_red(sets) * max_green(sets) * max_blue(sets)
}

/// Sum of the powers of the games' minimal draws.
pub open spec fn powers_sum(gs: Seq<(usize, Seq<GameSet>)>) -> int
    decreases gs.len(),
{
    if gs.len() == 0 {
        0
    } else {
        powers_sum(gs.drop_last()) + power_of(gs.last().1)
    }
}

pub proof fn lemma_ids_sum_prefix(gs: Seq<(usize, Seq<GameSet>)>, n: int)
    requires
        0 <= n <= gs.len(),
    ensures
        0 <= ids_sum(gs.take(n)) <= ids_sum(gs),
    decreases gs.len() - n,
{
    lemma_ids_sum_nonneg(gs.take(n));
    if n < gs.len() {
        assert(gs.take(n + 1).drop_last() =~= gs.take(n));
        assert(gs.take(n + 1).last() == gs[n]);
        lemma_ids_sum_prefix(gs, n + 1);
    } else {
        assert(gs.take(n) =~= gs);
    }
}

pub proof fn lemma_ids_sum_nonneg(gs: Seq<(usize, Seq<GameSet>)>)
    ensures
        ids_sum(gs) >= 0,
    decreases gs.len(),
{
    if gs.len() > 0 {
        lemma_ids_sum_nonneg(gs.drop_last());
    }
}

pub proof fn lemma_powers_sum_prefix(gs: Seq<(usize, Seq<GameSet>)>, n: int)
    requires
        0 <= n <= gs.len(),
        forall|k: int|
            0 <= k < gs.len() ==> power_of((#[trigger] gs[k]).1) >= 0,
    ensures
        0 <= powers_sum(gs.take(n)) <= powers_sum(gs),
    decreases gs.len() - n,
{
    lemma_powers_sum_nonneg(gs.take(n), gs);
    if n < gs.len() {
        assert(gs.take(n + 1).drop_last() =~= gs.take(n));
        assert(gs.take(n + 1).last() == gs[n]);
        lemma_powers_sum_prefix(gs, n + 1);
    } else {
        assert(gs.take(n) =~= gs);
    }
}

proof fn lemma_powers_sum_nonneg(gs: Seq<(usize, Seq<GameSet>)>, whole: Seq<(usize, Seq<GameSet>)>)
    requires
        forall|k: int| 0 <= k < gs.len() ==> gs[k] == whole[k],
        gs.len() <= whole.len(),
        forall|k: int|
            0 <= k < whole.len() ==> power_of((#[trigger] whole[k]).1) >= 0,
    ensures
        powers_sum(gs) >= 0,
    decreases gs.len(),
{
    if gs.len() > 0 {
        assert(forall|k: int| 0 <= k < gs.drop_last().len() ==> gs.drop_last()[k] == whole[k]);
        lemma_powers_sum_nonneg(gs.drop_last(), whole);
        assert(gs.last() == whole[gs.len() - 1]);
    }
}

/// Sum of possible game ids, or of minimal-draw powers; nothing when a
/// line is malformed.
#[verifier::loop_isolation(false)]
pub fn find_solution(input: &str, exercise2: bool) -> (r: Option<usize>)
    requires
        match games_of(input@) {
            Some(gs) => {
                &&& !exercise2 ==> ids_sum(gs) <= usize::MAX
                &&& exercise2 ==> forall|k: int|
                    {
                        let sets = (#[trigger] gs[k]).1;
                        0 <= k < gs.len() ==> max_red(sets) * max_green(sets) <= usize::MAX
                            && max_red(sets) * max_green(sets) * max_blue(sets) <= usize::MAX
                    }
                &&& exercise2 ==> powers_sum(gs) <= usize::MAX
            },
            None => true,
        },
    ensures
        match games_of(input@) {
            Some(gs) => r is Some && r->Some_0 == (if exercise2 {
                powers_sum(gs)
            } else {
                ids_sum(gs)
            }),
            None => r is None,
        },
{
    let games = match parse_input(input) {
        Some(v) => v,
        None => {
            return None;
        },
    };
    let ghost gs = games_of(input@)->Some_0;
    let mut sum: usize = 0;
    let mut k: usize = 0;
    proof {
        assert(gs.take(0) =~= Seq::<(usize, Seq<GameSet>)>::empty());
        if exercise2 {
            assert forall|k2: int| 0 <= k2 < gs.len() implies power_of(
                (#[trigger] gs[k2]).1,
            ) >= 0 by {
                assert(max_red(gs[k2].1) * max_green(gs[k2].1) * max_blue(gs[k2].1) >= 0)
                    by (nonlinear_arith);
            }
        }
    }
    while k < games.len()
        invariant
            k <= gs.len(),
            sum == (if exercise2 {
                powers_sum(gs.take(k as int))
            } else {
                ids_sum(gs.take(k as int))
            }),
        decreases gs.len() - k,
    {
        proof {
            assert(gs.take(k as int + 1).drop_last() =~= gs.take(k as int));
            assert(gs.take(k as int + 1).last() == gs[k as int]);
            if exercise2 {
                lemma_powers_sum_prefix(gs, k as int + 1);
                lemma_powers_sum_prefix(gs, k as int);
            } else {
                lemma_ids_sum_prefix(gs, k as int + 1);
                lemma_ids_sum_prefix(gs, k as int);
            }
        }
        let game = &games[k];
        if !exercise2 {
            if game.is_possible(12, 13, 14) {
                sum = sum + game.id;
            }
        } else {
            let m = game.min_possible();
            let p = m.power();
            sum = sum + p;
        }
        k = k + 1;
    }
    proof {
        assert(gs.take(gs.len() as int) =~= gs);
    }
    Some(sum)
}

} // verus!