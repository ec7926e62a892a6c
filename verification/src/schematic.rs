//! Schematic-grid adjacency: numbers found in a character grid count
//! when a symbol touches them, including diagonally.

use vstd::prelude::*;

verus! {

/// One number found in the grid: its value, digit count, and the row
/// and column where it starts.
#[derive(Debug, Hash, Eq, PartialEq, Clone, Copy)]
pub struct Part {
    pub part_num: usize,
    pub len: usize,
    pub i: usize,
    pub j: usize,
}

/// The character grid, row by row.
pub struct Grid {
    pub grid: Vec<Vec<char>>,
}

/// The character at `(i, j)`, a dot outside the grid.
pub open spec fn grid_get(g: Seq<Seq<char>>, i: int, j: int) -> char {
    if 0 <= i < g.len() && 0 <= j < g[i].len() {
        g[i][j]
    } else {
        '.'
    }
}

/// Like `grid_get`, with negative coordinates outside the grid.
pub open spec fn grid_get_signed(g: Seq<Seq<char>>, i: int, j: int) -> char {
    if i < 0 || j < 0 {
        '.'
    } else {
        grid_get(g, i, j)
    }
}

/// A character that is neither a digit nor a dot.
pub open spec fn is_symbol_spec(c: char) -> bool {
    !crate::text::is_digit_char(c) && c != '.'
}

/// Whether a digit stands at `(i, j)`.
pub open spec fn is_digit_at(g: Seq<Seq<char>>, i: int, j: int) -> bool {
    crate::text::is_digit_char(grid_get(g, i, j))
}

/// Whether a digit run starts at `(i, j)`.
pub open spec fn run_start(g: Seq<Seq<char>>, i: int, j: int) -> bool {
    is_digit_at(g, i, j) && !is_digit_at(g, i, j - 1)
}

/// Length of the digit run beginning at `(i, j)`.
pub open spec fn run_len(g: Seq<Seq<char>>, i: int, j: int) -> int
    decreases
            (if 0 <= i < g.len() && j < g[i].len() {
                g[i].len() - j
            } else {
                0int
            }),
{
    if is_digit_at(g, i, j) {
        1 + run_len(g, i, j + 1)
    } else {
        0
    }
}

/// The value of the digit run of length `l` beginning at `(i, j)`.
pub open spec fn run_val(g: Seq<Seq<char>>, i: int, j: int, l: int) -> int {
    crate::text::digits_val(g[i].subrange(j, j + l))
}

/// No run is longer than its row, and a run at a digit is non-empty.
pub proof fn lemma_run_len_bounds(g: Seq<Seq<char>>, i: int, j: int)
    ensures
        run_len(g, i, j) >= 0,
        is_digit_at(g, i, j) ==> run_len(g, i, j) >= 1 && 0 <= i < g.len() && 0 <= j && j
            + run_len(g, i, j) <= g[i].len(),
    decreases
            (if 0 <= i < g.len() && j < g[i].len() {
                g[i].len() - j
            } else {
                0int
            }),
{
    if is_digit_at(g, i, j) {
        lemma_run_len_bounds(g, i, j + 1);
    }
}

/// The parts of the grid from position `(i, j)` on, scanning row by
/// row, one part per maximal digit run.
pub open spec fn parts_from(g: Seq<Seq<char>>, i: int, j: int) -> Seq<Part>
    decreases g.len() - i, (if 0 <= i < g.len() {
            g[i].len() - j + 1
        } else {
            0int
        }),
    when 0 <= i && 0 <= j
    via parts_from_decreases
{
    if i >= g.len() {
        Seq::empty()
    } else if j >= g[i].len() {
        parts_from(g, i + 1, 0)
    } else if run_start(g, i, j) {
        let l = run_len(g, i, j);
        seq![
            Part {
                part_num: run_val(g, i, j, l) as usize,
                len: l as usize,
                i: i as usize,
                j: j as usize,
            },
        ] + parts_from(g, i, j + l)
    } else {
        parts_from(g, i, j + 1)
    }
}

#[via_fn]
proof fn parts_from_decreases(g: Seq<Seq<char>>, i: int, j: int) {
    if 0 <= i < g.len() && j < g[i].len() && run_start(g, i, j) {
        lemma_run_len_bounds(g, i, j);
    }
}

/// All parts of the grid.
pub open spec fn extract_parts_spec(g: Seq<Seq<char>>) -> Seq<Part> {
    parts_from(g, 0, 0)
}

/// Every digit run's value fits the machine word.
pub open spec fn all_runs_fit(g: Seq<Seq<char>>) -> bool {
    forall|i: int, j: int|
        #[trigger] run_start(g, i, j) ==> run_val(g, i, j, run_len(g, i, j)) <= usize::MAX
}

impl Grid {
    /// The character at `(i, j)`, a dot outside the grid.
    pub fn get(&self, i: usize, j: usize) -> (r: char)
        ensures
            r == grid_get(self.grid.deep_view(), i as int, j as int),
    {
        proof {
            if (i as int) < self.grid@.len() {
                assert(self.grid@[i as int]@ =~= self.grid.deep_view()[i as int]);
            }
        }
        if i >= self.grid.len() {
            return '.';
        }
        let row = &self.grid[i];
        if j >= row.len() {
            return '.';
        }
        row[j]
    }

    /// The character at signed coordinates, a dot outside the grid.
    pub fn get_signed(&self, i: i32, j: i32) -> (r: char)
        ensures
            r == grid_get_signed(self.grid.deep_view(), i as int, j as int),
    {
        if i < 0 || j < 0 {
            return '.';
        }
        let (iu, ju): (usize, usize) = (i as usize, j as usize);
        self.get(iu, ju)
    }

    /// Width of row `i`.
    pub fn width(&self, i: usize) -> (r: usize)
        requires
            i < self.grid@.len(),
        ensures
            r == self.grid.deep_view()[i as int].len(),
    {
        proof {
            assert(self.grid@[i as int]@ =~= self.grid.deep_view()[i as int]);
        }
        self.grid[i].len()
    }
}

/// Reads the grid: one row of characters per input line.
pub fn parse_input(input: &str) -> (g: Grid)
    ensures
        g.grid.deep_view() == crate::text::lines_of(input@),
{
    let chars = crate::text::chars_of(input);
    Grid { grid: crate::text::lines_of_chars(&chars) }
}

/// Whether `c` counts as a symbol.
pub fn is_symbol(c: &char) -> (r: bool)
    ensures
        r == is_symbol_spec(*c),
{
    let code: u32 = *c as u32;
    let digit = code >= '0' as u32 && code <= '9' as u32;
    !digit && *c != '.'
}

/// Whether a symbol stands next to `(i, j)`, diagonals included.
pub open spec fn around_symbol(g: Seq<Seq<char>>, i: int, j: int) -> bool {
    ||| is_symbol_spec(grid_get_signed(g, i - 1, j - 1))
    ||| is_symbol_spec(grid_get_signed(g, i - 1, j))
    ||| is_symbol_spec(grid_get_signed(g, i - 1, j + 1))
    ||| is_symbol_spec(grid_get_signed(g, i, j - 1))
    ||| is_symbol_spec(grid_get_signed(g, i, j + 1))
    ||| is_symbol_spec(grid_get_signed(g, i + 1, j - 1))
    ||| is_symbol_spec(grid_get_signed(g, i + 1, j))
    ||| is_symbol_spec(grid_get_signed(g, i + 1, j + 1))
}

/// Whether a symbol stands next to any position of the part's run,
/// the position one past its end included.
pub open spec fn adjacent_spec(g: Seq<Seq<char>>, p: Part) -> bool {
    exists|jj: int| p.j <= jj <= p.j + p.len && around_symbol(g, p.i as int, jj)
}

/// Whether a symbol touches the part anywhere along its run.
#[verifier::loop_isolation(false)]
pub fn symbol_adjacent(input: &Grid, p: &Part) -> (r: bool)
    requires
        p.i + 1 <= i32::MAX,
        p.j + p.len + 1 <= i32::MAX,
    ensures
        r == adjacent_spec(input.grid.deep_view(), *p),
{
    let ghost g = input.grid.deep_view();
    let mut adjacent = false;
    let mut jj: usize = p.j;
    while jj <= p.j + p.len
        invariant
            p.j <= jj <= p.j + p.len + 1,
            adjacent == exists|c: int| p.j <= c < jj && around_symbol(g, p.i as int, c),
        decreases p.j + p.len + 1 - jj,
    {
        let (ii, ji): (i32, i32) = (p.i as i32, jj as i32);
        let upper_left = input.get_signed(ii - 1, ji - 1);
        let upper = input.get_signed(ii - 1, ji);
        let upper_right = input.get_signed(ii - 1, ji + 1);
        let left = input.get_signed(ii, ji - 1);
        let right = input.get_signed(ii, ji + 1);
        let lower_left = input.get_signed(ii + 1, ji - 1);
        let lower = input.get_signed(ii + 1, ji);
        let lower_right = input.get_signed(ii + 1, ji + 1);
        if is_symbol(&upper_left) || is_symbol(&upper) || is_symbol(&upper_right) || is_symbol(
            &left,
        ) || is_symbol(&right) || is_symbol(&lower_left) || is_symbol(&lower) || is_symbol(
            &lower_right,
        ) {
            proof {
                assert(around_symbol(g, p.i as int, jj as int));
            }
            adjacent = true;
        }
        jj = jj + 1;
    }
    adjacent
}

/// Finds every maximal digit run of the grid and reads it as a part.
#[verifier::loop_isolation(false)]
pub fn extract_parts(input: &Grid) -> (parts: Vec<Part>)
    requires
        all_runs_fit(input.grid.deep_view()),
    ensures
        parts@ == extract_parts_spec(input.grid.deep_view()),
        forall|k: int|
            0 <= k < parts@.len() ==> (#[trigger] parts@[k]).i < input.grid.deep_view().len()
                && parts@[k].j + parts@[k].len <= input.grid.deep_view()[parts@[k].i as int].len(),
{
    let ghost g = input.grid.deep_view();
    let mut parts: Vec<Part> = Vec::new();
    let mut i: usize = 0;
    proof {
        assert(parts@ + parts_from(g, 0, 0) =~= parts_from(g, 0, 0));
    }
    while i < input.grid.len()
        invariant
            i <= g.len(),
            extract_parts_spec(g) == parts@ + parts_from(g, i as int, 0),
            forall|k: int|
                0 <= k < parts@.len() ==> (#[trigger] parts@[k]).i < g.len() && parts@[k].j
                    + parts@[k].len <= g[parts@[k].i as int].len(),
        decreases g.len() - i,
    {
        let width = input.width(i);
        let mut j: usize = 0;
        while j < width
            invariant
                i < g.len(),
                width == g[i as int].len(),
                j <= width,
                extract_parts_spec(g) == parts@ + parts_from(g, i as int, j as int),
                forall|k: int|
                    0 <= k < parts@.len() ==> (#[trigger] parts@[k]).i < g.len() && parts@[k].j
                        + parts@[k].len <= g[parts@[k].i as int].len(),
            decreases width - j,
        {
            let c = input.get(i, j);
            let code: u32 = c as u32;
            let digit_here = code >= '0' as u32 && code <= '9' as u32;
            let starts = digit_here && (j == 0 || {
                let prev = input.get(i, j - 1);
                let pcode: u32 = prev as u32;
                !(pcode >= '0' as u32 && pcode <= '9' as u32)
            });
            if starts {
                proof {
                    assert(run_start(g, i as int, j as int));
                    lemma_run_len_bounds(g, i as int, j as int);
                }
                let ghost rl = run_len(g, i as int, j as int);
                let mut l: usize = 1;
                let first_digit: usize = (code - '0' as u32) as usize;
                let mut num: usize = first_digit;
                proof {
                    assert(g[i as int].subrange(j as int, j as int + 1) =~= seq![
                        g[i as int][j as int],
                    ]);
                    assert(g[i as int].subrange(j as int, j as int + 1).drop_last() =~= Seq::<
                        char,
                    >::empty());
                    assert(crate::text::digits_val(Seq::<char>::empty()) == 0);
                    assert(c == g[i as int][j as int]);
                    assert(num == run_val(g, i as int, j as int, 1));
                    assert(rl == 1 + run_len(g, i as int, j as int + 1));
                }
                #[verifier::loop_isolation(true)]
                loop
                    invariant
                        g == input.grid.deep_view(),
                        all_runs_fit(g),
                        i < g.len(),
                        width == g[i as int].len(),
                        j < width,
                        run_start(g, i as int, j as int),
                        1 <= l,
                        j + l <= width,
                        rl == run_len(g, i as int, j as int),
                        rl == l + run_len(g, i as int, j as int + l),
                        num == run_val(g, i as int, j as int, l as int),
                    ensures
                        rl == l + run_len(g, i as int, j as int + l),
                        num == run_val(g, i as int, j as int, l as int),
                        !is_digit_at(g, i as int, j as int + l),
                        1 <= l,
                        j + l <= width,
                    decreases g[i as int].len() - j - l,
                {
                    let nc = input.get(i, j + l);
                    let ncode: u32 = nc as u32;
                    if !(ncode >= '0' as u32 && ncode <= '9' as u32) {
                        break;
                    }
                    let d: usize = (nc as u32 - '0' as u32) as usize;
                    proof {
                        assert(is_digit_at(g, i as int, j as int + l));
                        assert(j + l < g[i as int].len());
                        lemma_run_len_bounds(g, i as int, j as int + l);
                        assert(run_len(g, i as int, j as int + l) >= 1);
                        assert(l + 1 <= rl);
                        assert(run_len(g, i as int, j as int + l) == 1 + run_len(
                            g,
                            i as int,
                            j as int + l + 1,
                        ));
                        assert(j + rl <= g[i as int].len()) by {
                            lemma_run_len_bounds(g, i as int, j as int);
                        }
                        let run_seq = g[i as int].subrange(j as int, j as int + rl);
                        assert(forall|c2: int|
                            j <= c2 < j + rl ==> crate::text::is_digit_char(
                                #[trigger] g[i as int][c2],
                            )) by {
                            lemma_run_digits(g, i as int, j as int, rl);
                        }
                        assert forall|ix: int| 0 <= ix < run_seq.len() implies
                            crate::text::is_digit_char(run_seq[ix]) by {
                            assert(run_seq[ix] == g[i as int][j + ix]);
                        }
                        assert(crate::text::all_digits(run_seq));
                        crate::text::lemma_digits_val_prefix_le(run_seq, l as int + 1);
                        assert(run_seq.take(l as int + 1) =~= g[i as int].subrange(
                            j as int,
                            j as int + l + 1,
                        ));
                        assert(run_seq.take(l as int) =~= g[i as int].subrange(
                            j as int,
                            j as int + l,
                        ));
                        crate::text::lemma_digits_val_nonneg(run_seq.take(l as int));
                        assert(g[i as int].subrange(j as int, j as int + l + 1).drop_last() =~= g[i
                            as int].subrange(j as int, j as int + l));
                        assert(g[i as int].subrange(j as int, j as int + l + 1).last() == g[i
                            as int][j + l]);
                        assert(nc == g[i as int][j + l]);
                        assert(run_val(g, i as int, j as int, l as int + 1) == num * 10 + d);
                        assert(run_start(g, i as int, j as int));
                        assert(run_val(g, i as int, j as int, rl) <= usize::MAX);
                        assert(run_val(g, i as int, j as int, l as int + 1) <= run_val(
                            g,
                            i as int,
                            j as int,
                            rl,
                        ));
                    }
                    num = num * 10 + d;
                    l = l + 1;
                }
                proof {
                    assert(!is_digit_at(g, i as int, j as int + l));
                    assert(run_len(g, i as int, j as int + l) == 0);
                    assert(rl == l);
                    assert(parts_from(g, i as int, j as int) == seq![
                        Part { part_num: num, len: l, i, j },
                    ] + parts_from(g, i as int, j as int + l));
                }
                let ghost parts0 = parts@;
                parts.push(Part { part_num: num, len: l, i, j });
                proof {
                    assert(parts0 + (seq![Part { part_num: num, len: l, i, j }] + parts_from(
                        g,
                        i as int,
                        j as int + l,
                    )) =~= parts@ + parts_from(g, i as int, j as int + l));
                }
                j = j + l;
            } else {
                proof {
                    assert(!run_start(g, i as int, j as int));
                    assert(parts_from(g, i as int, j as int) == parts_from(
                        g,
                        i as int,
                        j as int + 1,
                    ));
                }
                j = j + 1;
            }
        }
        proof {
            assert(parts_from(g, i as int, j as int) == parts_from(g, i as int + 1, 0));
        }
        i = i + 1;
    }
    proof {
        assert(parts_from(g, g.len() as int, 0) =~= Seq::<Part>::empty());
        assert(parts@ + Seq::<Part>::empty() =~= parts@);
    }
    parts
}

/// Every position of a run of length `l` holds a digit.
proof fn lemma_run_digits(g: Seq<Seq<char>>, i: int, j: int, l: int)
    requires
        run_len(g, i, j) >= l,
    ensures
        forall|c2: int| j <= c2 < j + l ==> crate::text::is_digit_char(#[trigger] g[i][c2]),
    decreases l,
{
    if l > 0 {
        assert(is_digit_at(g, i, j));
        lemma_run_digits(g, i, j + 1, l - 1);
        assert forall|c2: int| j <= c2 < j + l implies crate::text::is_digit_char(
            #[trigger] g[i][c2],
        ) by {
            if c2 == j {
                assert(grid_get(g, i, j) == g[i][j]);
            }
        }
    }
}

/// Sum of the part numbers whose runs a symbol touches.
pub open spec fn adj_sum(g: Seq<Seq<char>>, ps: Seq<Part>) -> int
    decreases ps.len(),
{
    if ps.len() == 0 {
        0
    } else {
        adj_sum(g, ps.drop_last()) + (if adjacent_spec(g, ps.last()) {
            ps.last().part_num as int
        } else {
            0int
        })
    }
}

/// Sums the part numbers that a symbol touches.
#[verifier::loop_isolation(false)]
pub fn solve(input: &str, _star2: bool) -> (r: u32)
    requires
        all_runs_fit(crate::text::lines_of(input@)),
        crate::text::lines_of(input@).len() + 1 <= i32::MAX,
        forall|i: int|
            0 <= i < crate::text::lines_of(input@).len() ==> (#[trigger] crate::text::lines_of(
                input@,
            )[i]).len() + 1 <= i32::MAX,
        forall|k: int|
            0 <= k < extract_parts_spec(crate::text::lines_of(input@)).len() ==> (
            #[trigger] extract_parts_spec(crate::text::lines_of(input@))[k]).part_num
                <= u32::MAX,
        adj_sum(
            crate::text::lines_of(input@),
            extract_parts_spec(crate::text::lines_of(input@)),
        ) <= u32::MAX,
    ensures
        r == adj_sum(
            crate::text::lines_of(input@),
            extract_parts_spec(crate::text::lines_of(input@)),
        ),
{
    let grid = parse_input(input);
    let ghost g = grid.grid.deep_view();
    let parts: Vec<Part> = extract_parts(&grid);
    let ghost ps = parts@;
    let mut sum: u32 = 0;
    let mut k: usize = 0;
    proof {
        assert(ps.take(0) =~= Seq::<Part>::empty());
    }
    while k < parts.len()
        invariant
            k <= ps.len(),
            sum == adj_sum(g, ps.take(k as int)),
        decreases ps.len() - k,
    {
        let p = parts[k];
        proof {
            assert(ps.take(k as int + 1).drop_last() =~= ps.take(k as int));
            assert(ps.take(k as int + 1).last() == ps[k as int]);
            lemma_adj_sum_prefix_le(g, ps, k as int + 1);
            lemma_adj_sum_nonneg(g, ps.take(k as int));
        }
        if symbol_adjacent(&grid, &p) {
            sum = sum + (p.part_num as u32);
        }
        k = k + 1;
    }
    proof {
        assert(ps.take(ps.len() as int) =~= ps);
    }
    sum
}

proof fn lemma_adj_sum_nonneg(g: Seq<Seq<char>>, ps: Seq<Part>)
    ensures
        adj_sum(g, ps) >= 0,
    decreases ps.len(),
{
    if ps.len() > 0 {
        lemma_adj_sum_nonneg(g, ps.drop_last());
    }
}

proof fn lemma_adj_sum_prefix_le(g: Seq<Seq<char>>, ps: Seq<Part>, n: int)
    requires
        0 <= n <= ps.len(),
    ensures
        adj_sum(g, ps.take(n)) <= adj_sum(g, ps),
    decreases ps.len() - n,
{
    if n < ps.len() {
        assert(ps.take(n + 1).drop_last() =~= ps.take(n));
        lemma_adj_sum_prefix_le(g, ps, n + 1);
    } else {
        assert(ps.take(n) =~= ps);
    }
}

} // verus!