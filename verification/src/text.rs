//! Plain-text utilities shared by the puzzle modules: character access,
//! line and token splitting, and decimal number parsing, each verified
//! against a small specification function.

use vstd::prelude::*;

verus! {

/// A decimal digit character.
pub open spec fn is_digit_char(c: char) -> bool {
    ('0' as u32) <= (c as u32) && (c as u32) <= ('9' as u32)
}

/// Numeric value of a digit character.
pub open spec fn digit_val(c: char) -> int {
    c as u32 - '0' as u32
}

/// Every character of `s` is a decimal digit.
pub open spec fn all_digits(s: Seq<char>) -> bool {
    forall|i: int| 0 <= i < s.len() ==> is_digit_char(s[i])
}

/// Value of a digit string read in base ten.
pub open spec fn digits_val(s: Seq<char>) -> int
    decreases s.len(),
{
    if s.len() == 0 {
        0
    } else {
        digits_val(s.drop_last()) * 10 + digit_val(s.last())
    }
}

/// What parsing an unsigned 64-bit decimal number from `s` yields:
/// the digits' value when `s` is a non-empty all-digit string whose value
/// fits, and nothing otherwise.
pub open spec fn parse_u64_spec(s: Seq<char>) -> Option<u64> {
    if s.len() > 0 && all_digits(s) && digits_val(s) <= u64::MAX {
        Some(digits_val(s) as u64)
    } else {
        None
    }
}

/// Like `parse_u64_spec`, further requiring the value to fit in `usize`.
pub open spec fn parse_usize_spec(s: Seq<char>) -> Option<usize> {
    match parse_u64_spec(s) {
        Some(v) => if v <= usize::MAX {
            Some(v as usize)
        } else {
            None
        },
        None => None,
    }
}

pub proof fn lemma_digits_val_nonneg(s: Seq<char>)
    requires
        all_digits(s),
    ensures
        digits_val(s) >= 0,
    decreases s.len(),
{
    if s.len() > 0 {
        assert(all_digits(s.drop_last()));
        lemma_digits_val_nonneg(s.drop_last());
    }
}

/// The value of a digit string only grows as digits are appended.
pub proof fn lemma_digits_val_prefix_le(s: Seq<char>, i: int)
    requires
        all_digits(s),
        0 <= i <= s.len(),
    ensures
        digits_val(s.take(i)) <= digits_val(s),
    decreases s.len() - i,
{
    if i < s.len() {
        assert(all_digits(s.take(i)));
        assert(s.take(i + 1).drop_last() =~= s.take(i));
        assert(s.take(i + 1).last() == s[i]);
        lemma_digits_val_nonneg(s.take(i));
        assert(digits_val(s.take(i)) <= digits_val(s.take(i + 1)));
        lemma_digits_val_prefix_le(s, i + 1);
    } else {
        assert(s.take(i) =~= s);
    }
}

/// The characters of `s`, in order.
pub fn chars_of(s: &str) -> (r: Vec<char>)
    ensures
        r@ == s@,
{
    let n: usize = s.unicode_len();
    let mut r: Vec<char> = Vec::new();
    let mut i: usize = 0;
    while i < n
        invariant
            n == s@.len(),
            i <= n,
            r@ == s@.take(i as int),
        decreases n - i,
    {
        r.push(s.get_char(i));
        i = i + 1;
        assert(r@ =~= s@.take(i as int));
    }
    assert(s@.take(n as int) =~= s@);
    r
}

/// Parses `s` as an unsigned 64-bit decimal number.
pub fn parse_u64(s: &Vec<char>) -> (r: Option<u64>)
    ensures
        r == parse_u64_spec(s@),
{
    if s.len() == 0 {
        return None;
    }
    let mut acc: u64 = 0;
    let mut i: usize = 0;
    while i < s.len()
        invariant
            0 < s@.len(),
            i <= s@.len(),
            all_digits(s@.take(i as int)),
            acc == digits_val(s@.take(i as int)),
        decreases s@.len() - i,
    {
        let c = s[i];
        let code: u32 = c as u32;
        if code < '0' as u32 || code > '9' as u32 {
            assert(!is_digit_char(s@[i as int]));
            return None;
        }
        let d: u64 = (code - '0' as u32) as u64;
        proof {
            assert(s@.take(i as int + 1).drop_last() =~= s@.take(i as int));
            assert(s@.take(i as int + 1).last() == s@[i as int]);
        }
        let next = match acc.checked_mul(10) {
            Some(m) => m.checked_add(d),
            None => None,
        };
        match next {
            Some(v) => {
                acc = v;
            },
            None => {
                proof {
                    assert(digits_val(s@.take(i as int + 1)) > u64::MAX);
                    if all_digits(s@) {
                        lemma_digits_val_prefix_le(s@, i as int + 1);
                    }
                }
                return None;
            },
        }
        i = i + 1;
    }
    proof {
        assert(s@.take(s@.len() as int) =~= s@);
    }
    Some(acc)
}

/// Parses `s` as a decimal number that fits in `usize`.
pub fn parse_usize(s: &Vec<char>) -> (r: Option<usize>)
    ensures
        r == parse_usize_spec(s@),
{
    match parse_u64(s) {
        Some(v) => {
            if v <= usize::MAX as u64 {
                Some(v as usize)
            } else {
                None
            }
        },
        None => None,
    }
}

/// The pieces of `s` between occurrences of `sep`. Always at least one
/// piece; a separator at either end yields an empty piece there.
pub open spec fn split_on(s: Seq<char>, sep: char) -> Seq<Seq<char>>
    decreases s.len(),
{
    if s.len() == 0 {
        seq![Seq::<char>::empty()]
    } else if s[0] == sep {
        seq![Seq::<char>::empty()] + split_on(s.drop_first(), sep)
    } else {
        let rest = split_on(s.drop_first(), sep);
        seq![seq![s[0]] + rest[0]] + rest.drop_first()
    }
}

pub proof fn lemma_split_on_len(s: Seq<char>, sep: char)
    ensures
        split_on(s, sep).len() >= 1,
    decreases s.len(),
{
    if s.len() > 0 && s[0] != sep {
        lemma_split_on_len(s.drop_first(), sep);
    }
}

/// The given pieces with `pre` glued onto the front of the first piece.
pub open spec fn glue_first(pre: Seq<char>, pieces: Seq<Seq<char>>) -> Seq<Seq<char>> {
    seq![pre + pieces[0]] + pieces.drop_first()
}

/// Splits `s` at every occurrence of `sep`.
pub fn split_on_chars(s: &Vec<char>, sep: char) -> (r: Vec<Vec<char>>)
    ensures
        r.deep_view() == split_on(s@, sep),
{
    let mut out: Vec<Vec<char>> = Vec::new();
    let mut cur: Vec<char> = Vec::new();
    let mut i: usize = 0;
    proof {
        lemma_split_on_len(s@, sep);
        assert(s@.skip(0) =~= s@);
        assert(cur@ + split_on(s@, sep)[0] =~= split_on(s@, sep)[0]);
        assert(out.deep_view() + glue_first(cur@, split_on(s@, sep)) =~~= glue_first(
            cur@,
            split_on(s@, sep),
        ));
        assert(glue_first(cur@, split_on(s@, sep)) =~~= split_on(s@, sep));
    }
    while i < s.len()
        invariant
            i <= s@.len(),
            split_on(s@, sep) == out.deep_view() + glue_first(
                cur@,
                split_on(s@.skip(i as int), sep),
            ),
        decreases s@.len() - i,
    {
        let c = s[i];
        proof {
            assert(s@.skip(i as int).len() > 0);
            assert(s@.skip(i as int)[0] == s@[i as int]);
            assert(s@.skip(i as int).drop_first() =~= s@.skip(i as int + 1));
            lemma_split_on_len(s@.skip(i as int + 1), sep);
        }
        let ghost rest = split_on(s@.skip(i as int + 1), sep);
        if c == sep {
            let ghost cur_v = cur@;
            let ghost old_deep = out.deep_view();
            let done = cur;
            out.push(done);
            cur = Vec::new();
            proof {
                assert(out.deep_view() =~~= old_deep.push(cur_v));
                assert(split_on(s@.skip(i as int), sep) == seq![Seq::<char>::empty()] + rest);
                assert(cur_v + (seq![Seq::<char>::empty()] + rest)[0] =~= cur_v);
                assert((seq![Seq::<char>::empty()] + rest).drop_first() =~= rest);
                assert(glue_first(cur_v, seq![Seq::<char>::empty()] + rest) =~~= seq![cur_v]
                    + rest);
                assert(cur@ + rest[0] =~= rest[0]);
                assert(glue_first(cur@, rest) =~~= rest);
                assert(old_deep + (seq![cur_v] + rest) =~~= old_deep.push(cur_v) + rest);
            }
        } else {
            let ghost cur_v = cur@;
            cur.push(c);
            proof {
                assert(split_on(s@.skip(i as int), sep) == seq![seq![s@[i as int]] + rest[0]]
                    + rest.drop_first());
                assert(cur_v + (seq![s@[i as int]] + rest[0]) =~= cur@ + rest[0]);
                assert(glue_first(cur_v, split_on(s@.skip(i as int), sep)) =~~= glue_first(
                    cur@,
                    rest,
                ));
            }
        }
        i = i + 1;
    }
    proof {
        assert(s@.skip(s@.len() as int) =~= Seq::<char>::empty());
        assert(split_on(Seq::<char>::empty(), sep) == seq![Seq::<char>::empty()]);
        assert(cur@ + Seq::<char>::empty() =~= cur@);
        assert(glue_first(cur@, seq![Seq::<char>::empty()]) =~~= seq![cur@]);
    }
    let ghost old_deep = out.deep_view();
    let ghost cur_v = cur@;
    out.push(cur);
    proof {
        assert(out.deep_view() =~~= old_deep.push(cur_v));
        assert(old_deep + seq![cur_v] =~~= old_deep.push(cur_v));
    }
    out
}

/// A line with a trailing carriage return removed.
pub open spec fn strip_cr(l: Seq<char>) -> Seq<char> {
    if l.len() > 0 && l.last() == '\r' {
        l.drop_last()
    } else {
        l
    }
}

/// The lines of `s`: pieces between newlines, without a final empty piece
/// after a trailing newline, each with a trailing carriage return removed.
pub open spec fn lines_of(s: Seq<char>) -> Seq<Seq<char>> {
    if s.len() == 0 {
        Seq::empty()
    } else {
        let raw = split_on(s, '\n');
        let kept = if s.last() == '\n' {
            raw.drop_last()
        } else {
            raw
        };
        kept.map_values(|l: Seq<char>| strip_cr(l))
    }
}

/// Splits `s` into its lines.
pub fn lines_of_chars(s: &Vec<char>) -> (r: Vec<Vec<char>>)
    ensures
        r.deep_view() == lines_of(s@),
{
    if s.len() == 0 {
        let r: Vec<Vec<char>> = Vec::new();
        proof {
            assert(r.deep_view() =~~= lines_of(s@));
        }
        return r;
    }
    let mut pieces = split_on_chars(s, '\n');
    if s[s.len() - 1] == '\n' {
        proof {
            lemma_split_on_len(s@, '\n');
            assert(pieces@.len() == pieces.deep_view().len());
        }
        let ghost old_deep = pieces.deep_view();
        pieces.pop();
        proof {
            assert(pieces.deep_view() =~~= old_deep.drop_last());
        }
    }
    let ghost kept = pieces.deep_view();
    let ghost target = kept.map_values(|l: Seq<char>| strip_cr(l));
    proof {
        assert(target == lines_of(s@));
    }
    let mut out: Vec<Vec<char>> = Vec::new();
    while pieces.len() > 0
        invariant
            out.deep_view() + pieces.deep_view().map_values(|l: Seq<char>| strip_cr(l)) == target,
        decreases pieces@.len(),
    {
        let ghost pre_deep = pieces.deep_view();
        let mut p = pieces.remove(0);
        proof {
            assert(pieces.deep_view() =~~= pre_deep.drop_first());
            assert(p.deep_view() == pre_deep[0]);
        }
        let ghost p_v = p@;
        if p.len() > 0 && p[p.len() - 1] == '\r' {
            p.pop();
        }
        proof {
            assert(p@ == strip_cr(p_v));
        }
        let ghost old_out = out.deep_view();
        out.push(p);
        proof {
            assert(out.deep_view() =~~= old_out.push(strip_cr(p_v)));
            assert(old_out.push(strip_cr(p_v)) + pieces.deep_view().map_values(
                |l: Seq<char>| strip_cr(l),
            ) =~~= old_out + pre_deep.map_values(|l: Seq<char>| strip_cr(l)));
        }
    }
    proof {
        assert(out.deep_view() + pieces.deep_view().map_values(|l: Seq<char>| strip_cr(l)) =~~=
        out.deep_view());
    }
    out
}

/// The non-empty pieces among `pieces`, in order.
pub open spec fn nonempty_of(pieces: Seq<Seq<char>>) -> Seq<Seq<char>>
    decreases pieces.len(),
{
    if pieces.len() == 0 {
        Seq::empty()
    } else if pieces[0].len() > 0 {
        seq![pieces[0]] + nonempty_of(pieces.drop_first())
    } else {
        nonempty_of(pieces.drop_first())
    }
}

/// Keeps the non-empty pieces of `pieces`, in order.
pub fn filter_nonempty(pieces: Vec<Vec<char>>) -> (r: Vec<Vec<char>>)
    ensures
        r.deep_view() == nonempty_of(pieces.deep_view()),
{
    let ghost orig = pieces.deep_view();
    let mut rest = pieces;
    let mut out: Vec<Vec<char>> = Vec::new();
    proof {
        assert(out.deep_view() + nonempty_of(rest.deep_view()) =~~= nonempty_of(orig));
    }
    while rest.len() > 0
        invariant
            out.deep_view() + nonempty_of(rest.deep_view()) == nonempty_of(orig),
        decreases rest@.len(),
    {
        let ghost pre_deep = rest.deep_view();
        let p = rest.remove(0);
        proof {
            assert(rest.deep_view() =~~= pre_deep.drop_first());
            assert(p.deep_view() == pre_deep[0]);
        }
        if p.len() > 0 {
            let ghost old_out = out.deep_view();
            let ghost p_v = p@;
            proof {
                assert(p_v =~= p.deep_view());
            }
            out.push(p);
            proof {
                assert(out.deep_view() =~~= old_out.push(p_v));
                assert(nonempty_of(pre_deep) == seq![p_v] + nonempty_of(pre_deep.drop_first()));
                assert(old_out.push(p_v) + nonempty_of(rest.deep_view()) =~~= old_out + nonempty_of(
                    pre_deep,
                ));
            }
        }
    }
    proof {
        assert(out.deep_view() + nonempty_of(rest.deep_view()) =~~= out.deep_view());
    }
    out
}

/// The space-separated tokens of `s`.
pub open spec fn tokens_of(s: Seq<char>) -> Seq<Seq<char>> {
    nonempty_of(split_on(s, ' '))
}

/// Splits `s` into its space-separated tokens.
pub fn tokens_of_chars(s: &Vec<char>) -> (r: Vec<Vec<char>>)
    ensures
        r.deep_view() == tokens_of(s@),
{
    let pieces = split_on_chars(s, ' ');
    filter_nonempty(pieces)
}

/// The characters of `s` from `from` (inclusive) to `to` (exclusive).
pub fn slice_chars(s: &Vec<char>, from: usize, to: usize) -> (r: Vec<char>)
    requires
        from <= to <= s@.len(),
    ensures
        r@ == s@.subrange(from as int, to as int),
{
    let mut r: Vec<char> = Vec::new();
    let mut i: usize = from;
    while i < to
        invariant
            from <= i <= to <= s@.len(),
            r@ == s@.subrange(from as int, i as int),
        decreases to - i,
    {
        r.push(s[i]);
        i = i + 1;
        assert(r@ =~= s@.subrange(from as int, i as int));
    }
    r
}

/// Whether two string slices hold the same characters.
pub fn str_eq(a: &str, b: &str) -> (r: bool)
    ensures
        r == (a@ == b@),
{
    let na: usize = a.unicode_len();
    let nb: usize = b.unicode_len();
    if na != nb {
        return false;
    }
    let mut i: usize = 0;
    while i < na
        invariant
            na == a@.len(),
            nb == b@.len(),
            na == nb,
            i <= na,
            forall|k: int| 0 <= k < i ==> a@[k] == b@[k],
        decreases na - i,
    {
        if a.get_char(i) != b.get_char(i) {
            return false;
        }
        i = i + 1;
    }
    proof {
        assert(a@ =~= b@);
    }
    true
}

/// Whether the characters of `v` are exactly those of `lit`.
pub fn chars_eq(v: &Vec<char>, lit: &str) -> (r: bool)
    ensures
        r == (v@ == lit@),
{
    let n: usize = lit.unicode_len();
    if v.len() != n {
        return false;
    }
    let mut i: usize = 0;
    while i < n
        invariant
            n == lit@.len(),
            n == v@.len(),
            i <= n,
            forall|k: int| 0 <= k < i ==> v@[k] == lit@[k],
        decreases n - i,
    {
        if v[i] != lit.get_char(i) {
            return false;
        }
        i = i + 1;
    }
    proof {
        assert(v@ =~= lit@);
    }
    true
}

/// The pieces of `s` between occurrences of the doubled separator
/// `sep sep`, as `split_on` is to a single separator.
pub open spec fn split_on2(s: Seq<char>, sep: char) -> Seq<Seq<char>>
    decreases s.len(),
{
    if s.len() == 0 {
        seq![Seq::<char>::empty()]
    } else if s.len() >= 2 && s[0] == sep && s[1] == sep {
        seq![Seq::<char>::empty()] + split_on2(s.skip(2), sep)
    } else {
        let rest = split_on2(s.drop_first(), sep);
        seq![seq![s[0]] + rest[0]] + rest.drop_first()
    }
}

pub proof fn lemma_split_on2_len(s: Seq<char>, sep: char)
    ensures
        split_on2(s, sep).len() >= 1,
    decreases s.len(),
{
    if s.len() >= 2 && s[0] == sep && s[1] == sep {
    } else if s.len() > 0 {
        lemma_split_on2_len(s.drop_first(), sep);
    }
}

/// Splits `s` at every occurrence of the doubled separator `sep sep`.
pub fn split_on2_chars(s: &Vec<char>, sep: char) -> (r: Vec<Vec<char>>)
    ensures
        r.deep_view() == split_on2(s@, sep),
{
    let mut out: Vec<Vec<char>> = Vec::new();
    let mut cur: Vec<char> = Vec::new();
    let mut i: usize = 0;
    proof {
        lemma_split_on2_len(s@, sep);
        assert(s@.skip(0) =~= s@);
        assert(cur@ + split_on2(s@, sep)[0] =~= split_on2(s@, sep)[0]);
        assert(out.deep_view() + glue_first(cur@, split_on2(s@, sep)) =~~= glue_first(
            cur@,
            split_on2(s@, sep),
        ));
        assert(glue_first(cur@, split_on2(s@, sep)) =~~= split_on2(s@, sep));
    }
    while i < s.len()
        invariant
            i <= s@.len(),
            split_on2(s@, sep) == out.deep_view() + glue_first(
                cur@,
                split_on2(s@.skip(i as int), sep),
            ),
        decreases s@.len() - i,
    {
        let two = i + 1 < s.len() && s[i] == sep && s[i + 1] == sep;
        proof {
            assert(s@.skip(i as int).len() > 0);
            assert(s@.skip(i as int)[0] == s@[i as int]);
            if i as int + 1 < s@.len() {
                assert(s@.skip(i as int)[1] == s@[i as int + 1]);
            }
        }
        if two {
            let ghost rest = split_on2(s@.skip(i as int + 2), sep);
            proof {
                assert(s@.skip(i as int).skip(2) =~= s@.skip(i as int + 2));
                lemma_split_on2_len(s@.skip(i as int + 2), sep);
            }
            let ghost cur_v = cur@;
            let ghost old_deep = out.deep_view();
            let done = cur;
            out.push(done);
            cur = Vec::new();
            proof {
                assert(out.deep_view() =~~= old_deep.push(cur_v));
                assert(split_on2(s@.skip(i as int), sep) == seq![Seq::<char>::empty()] + rest);
                assert(cur_v + (seq![Seq::<char>::empty()] + rest)[0] =~= cur_v);
                assert((seq![Seq::<char>::empty()] + rest).drop_first() =~= rest);
                assert(glue_first(cur_v, seq![Seq::<char>::empty()] + rest) =~~= seq![cur_v]
                    + rest);
                assert(cur@ + rest[0] =~= rest[0]);
                assert(glue_first(cur@, rest) =~~= rest);
                assert(old_deep + (seq![cur_v] + rest) =~~= old_deep.push(cur_v) + rest);
            }
            i = i + 2;
        } else {
            let c = s[i];
            let ghost rest = split_on2(s@.skip(i as int + 1), sep);
            proof {
                assert(s@.skip(i as int).drop_first() =~= s@.skip(i as int + 1));
                lemma_split_on2_len(s@.skip(i as int + 1), sep);
            }
            let ghost cur_v = cur@;
            cur.push(c);
            proof {
                assert(split_on2(s@.skip(i as int), sep) == seq![seq![s@[i as int]] + rest[0]]
                    + rest.drop_first());
                assert(cur_v + (seq![s@[i as int]] + rest[0]) =~= cur@ + rest[0]);
                assert(glue_first(cur_v, split_on2(s@.skip(i as int), sep)) =~~= glue_first(
                    cur@,
                    rest,
                ));
            }
            i = i + 1;
        }
    }
    proof {
        assert(s@.skip(s@.len() as int) =~= Seq::<char>::empty());
        assert(split_on2(Seq::<char>::empty(), sep) == seq![Seq::<char>::empty()]);
        assert(cur@ + Seq::<char>::empty() =~= cur@);
        assert(glue_first(cur@, seq![Seq::<char>::empty()]) =~~= seq![cur@]);
    }
    let ghost old_deep = out.deep_view();
    let ghost cur_v = cur@;
    out.push(cur);
    proof {
        assert(out.deep_view() =~~= old_deep.push(cur_v));
        assert(old_deep + seq![cur_v] =~~= old_deep.push(cur_v));
    }
    out
}

/// Relies on `String::from_iter` over `char`: collecting characters
/// yields the string of exactly those characters in order.
#[verifier::external_body]
pub fn string_from_chars(v: &Vec<char>) -> (r: String)
    ensures
        r@ == v@,
{
    v.iter().collect()
}

/// Whether the characters of `p` stand in `v` at position `i`.
pub open spec fn word_at(v: Seq<char>, i: int, p: Seq<char>) -> bool {
    i + p.len() <= v.len() && v.subrange(i, i + p.len()) == p
}

/// Whether the characters of `p` stand in `v` at position `i`.
pub fn has_at(v: &Vec<char>, i: usize, p: &str) -> (r: bool)
    requires
        i <= v@.len(),
    ensures
        r == word_at(v@, i as int, p@),
{
    let np: usize = p.unicode_len();
    if np > v.len() - i {
        return false;
    }
    let mut k: usize = 0;
    while k < np
        invariant
            np == p@.len(),
            i + np <= v@.len(),
            v@.len() <= usize::MAX,
            k <= np,
            forall|x: int| 0 <= x < k ==> v@[i + x] == p@[x],
        decreases np - k,
    {
        if v[i + k] != p.get_char(k) {
            proof {
                assert(v@.subrange(i as int, i + np)[k as int] != p@[k as int]);
            }
            return false;
        }
        k = k + 1;
    }
    proof {
        assert(v@.subrange(i as int, i + np) =~= p@);
    }
    true
}

/// Whether the characters of `p` are a prefix of `v`.
pub fn has_prefix(v: &Vec<char>, p: &str) -> (r: bool)
    ensures
        r == (p@.len() <= v@.len() && v@.take(p@.len() as int) == p@),
{
    let np: usize = p.unicode_len();
    if np > v.len() {
        return false;
    }
    let mut i: usize = 0;
    while i < np
        invariant
            np == p@.len(),
            np <= v@.len(),
            i <= np,
            forall|k: int| 0 <= k < i ==> v@[k] == p@[k],
        decreases np - i,
    {
        if v[i] != p.get_char(i) {
            proof {
                assert(v@.take(np as int)[i as int] != p@[i as int]);
            }
            return false;
        }
        i = i + 1;
    }
    proof {
        assert(v@.take(np as int) =~= p@);
    }
    true
}

} // verus!
