//! Digit-word extraction: each line's calibration value is ten times its
//! first digit plus its last, digits optionally spelled out as words.

use vstd::prelude::*;

verus! {

/// The digit spelled out at position `i`, if any.
pub open spec fn spelled_at(line: Seq<char>, i: int) -> Option<u32> {
    if crate::text::word_at(line, i, "one"@) {
        Some(1u32)
    } else if crate::text::word_at(line, i, "two"@) {
        Some(2u32)
    } else if crate::text::word_at(line, i, "three"@) {
        Some(3u32)
    } else if crate::text::word_at(line, i, "four"@) {
        Some(4u32)
    } else if crate::text::word_at(line, i, "five"@) {
        Some(5u32)
    } else if crate::text::word_at(line, i, "six"@) {
        Some(6u32)
    } else if crate::text::word_at(line, i, "seven"@) {
        Some(7u32)
    } else if crate::text::word_at(line, i, "eight"@) {
        Some(8u32)
    } else if crate::text::word_at(line, i, "nine"@) {
        Some(9u32)
    } else {
        None
    }
}

/// The digit found at position `i`: a digit character always counts, a
/// spelled-out word only in the second reading.
pub open spec fn digit_mark(line: Seq<char>, i: int, day_2: bool) -> Option<u32> {
    if crate::text::is_digit_char(line[i]) {
        Some((line[i] as u32 - '0' as u32) as u32)
    } else if day_2 {
        spelled_at(line, i)
    } else {
        None
    }
}

/// Every digit found from position `i` on, in order.
pub open spec fn digits_found(line: Seq<char>, i: int, day_2: bool) -> Seq<u32>
    decreases line.len() - i,
    when 0 <= i
{
    if i >= line.len() {
        Seq::empty()
    } else {
        match digit_mark(line, i, day_2) {
            Some(d) => seq![d] + digits_found(line, i + 1, day_2),
            None => digits_found(line, i + 1, day_2),
        }
    }
}

/// The line's calibration value: ten times the first digit found plus
/// the last one.
pub open spec fn line_value(line: Seq<char>, day_2: bool) -> int {
    let ds = digits_found(line, 0, day_2);
    10 * ds[0] + ds.last()
}

/// Reads the first and last digit of one line.
#[verifier::loop_isolation(false)]
fn find_digits(line: &Vec<char>, day_2: bool) -> (r: u32)
    requires
        digits_found(line@, 0, day_2).len() > 0,
    ensures
        r == line_value(line@, day_2),
{
    let ghost ds0 = digits_found(line@, 0, day_2);
    let ghost mut acc: Seq<u32> = Seq::empty();
    let mut first: u32 = 0;
    let mut last: u32 = 0;
    let mut found = false;
    let mut i: usize = 0;
    proof {
        assert(acc + ds0 =~= ds0);
    }
    while i < line.len()
        invariant
            i <= line@.len(),
            ds0 == acc + digits_found(line@, i as int, day_2),
            found <==> acc.len() > 0,
            found ==> first == acc[0] && last == acc.last(),
            first <= 9 && last <= 9,
        decreases line@.len() - i,
    {
        let c = line[i];
        let code: u32 = c as u32;
        let mark: Option<u32> = if code >= '0' as u32 && code <= '9' as u32 {
            Some(code - '0' as u32)
        } else if day_2 {
            if crate::text::has_at(line, i, "one") {
                Some(1)
            } else if crate::text::has_at(line, i, "two") {
                Some(2)
            } else if crate::text::has_at(line, i, "three") {
                Some(3)
            } else if crate::text::has_at(line, i, "four") {
                Some(4)
            } else if crate::text::has_at(line, i, "five") {
                Some(5)
            } else if crate::text::has_at(line, i, "six") {
                Some(6)
            } else if crate::text::has_at(line, i, "seven") {
                Some(7)
            } else if crate::text::has_at(line, i, "eight") {
                Some(8)
            } else if crate::text::has_at(line, i, "nine") {
                Some(9)
            } else {
                None
            }
        } else {
            None
        };
        proof {
            assert(mark == digit_mark(line@, i as int, day_2));
        }
        match mark {
            Some(d) => {
                proof {
                    assert(acc + (seq![d] + digits_found(line@, i as int + 1, day_2)) =~=
                    acc.push(d) + digits_found(line@, i as int + 1, day_2));
                    acc = acc.push(d);
                }
                if !found {
                    first = d;
                    found = true;
                }
                last = d;
            },
            None => {},
        }
        i = i + 1;
    }
    proof {
        assert(digits_found(line@, line@.len() as int, day_2) =~= Seq::<u32>::empty());
        assert(acc + Seq::<u32>::empty() =~= acc);
        assert(acc == ds0);
    }
    10 * first + last
}

/// Whether every line yields at least one digit.
pub open spec fn all_lines_marked(ls: Seq<Seq<char>>, day_2: bool) -> bool {
    forall|k: int| 0 <= k < ls.len() ==> digits_found(#[trigger] ls[k], 0, day_2).len() > 0
}

/// Sum of the lines' calibration values.
pub open spec fn values_sum(ls: Seq<Seq<char>>, day_2: bool) -> int
    decreases ls.len(),
{
    if ls.len() == 0 {
        0
    } else {
        values_sum(ls.drop_last(), day_2) + line_value(ls.last(), day_2)
    }
}

pub proof fn lemma_values_sum_prefix(ls: Seq<Seq<char>>, day_2: bool, n: int)
    requires
        0 <= n <= ls.len(),
        all_lines_marked(ls, day_2),
    ensures
        0 <= values_sum(ls.take(n), day_2) <= values_sum(ls, day_2),
    decreases ls.len() - n,
{
    lemma_values_sum_nonneg(ls.take(n), ls, day_2);
    if n < ls.len() {
        assert(ls.take(n + 1).drop_last() =~= ls.take(n));
        assert(ls.take(n + 1).last() == ls[n]);
        lemma_values_sum_prefix(ls, day_2, n + 1);
    } else {
        assert(ls.take(n) =~= ls);
    }
}

proof fn lemma_values_sum_nonneg(ls: Seq<Seq<char>>, whole: Seq<Seq<char>>, day_2: bool)
    requires
        ls.len() <= whole.len(),
        forall|k: int| 0 <= k < ls.len() ==> ls[k] == whole[k],
        all_lines_marked(whole, day_2),
    ensures
        values_sum(ls, day_2) >= 0,
    decreases ls.len(),
{
    if ls.len() > 0 {
        assert(forall|k: int| 0 <= k < ls.drop_last().len() ==> ls.drop_last()[k] == whole[k]);
        lemma_values_sum_nonneg(ls.drop_last(), whole, day_2);
        assert(ls.last() == whole[ls.len() - 1]);
        assert(digits_found(ls.last(), 0, day_2).len() > 0);
    }
}

/// Sum of the calibration values over every line of the input.
#[verifier::loop_isolation(false)]
pub fn find_solution(s: &str, day_2: bool) -> (r: u32)
    requires
        all_lines_marked(crate::text::lines_of(s@), day_2),
        values_sum(crate::text::lines_of(s@), day_2) <= u32::MAX,
    ensures
        r == values_sum(crate::text::lines_of(s@), day_2),
{
    let chars = crate::text::chars_of(s);
    let lines = crate::text::lines_of_chars(&chars);
    let ghost ls = crate::text::lines_of(s@);
    let mut sum: u32 = 0;
    let mut k: usize = 0;
    proof {
        assert(ls.take(0) =~= Seq::<Seq<char>>::empty());
    }
    while k < lines.len()
        invariant
            k <= ls.len(),
            sum == values_sum(ls.take(k as int), day_2),
        decreases ls.len() - k,
    {
        proof {
            assert(lines@[k as int]@ =~= lines.deep_view()[k as int]);
            assert(ls.take(k as int + 1).drop_last() =~= ls.take(k as int));
            assert(ls.take(k as int + 1).last() == ls[k as int]);
            lemma_values_sum_prefix(ls, day_2, k as int + 1);
            lemma_values_sum_prefix(ls, day_2, k as int);
        }
        let v = find_digits(&lines[k], day_2);
        sum = sum + v;
        k = k + 1;
    }
    proof {
        assert(ls.take(ls.len() as int) =~= ls);
    }
    sum
}

} // verus!