//! Character-level text operations: the whitespace class, trimming,
//! splitting on a separator, decimal integers and substring search.
//! Text is handled as a `Vec<char>` plus index ranges; each operation is
//! stated over the `Seq<char>` of the range it reads.
use vstd::prelude::*;
use vstd::string::*;

verus! {

/// Whether `c` is a Unicode `White_Space` character, the set that
/// `char::is_whitespace` and `str::trim` go by.
pub open spec fn is_space(c: char) -> bool {
    ||| ('\u{9}' <= c && c <= '\u{d}')
    ||| c == ' '
    ||| c == '\u{85}'
    ||| c == '\u{a0}'
    ||| c == '\u{1680}'
    ||| ('\u{2000}' <= c && c <= '\u{200a}')
    ||| c == '\u{2028}'
    ||| c == '\u{2029}'
    ||| c == '\u{202f}'
    ||| c == '\u{205f}'
    ||| c == '\u{3000}'
}

/// `s` without its leading whitespace.
pub open spec fn trim_start(s: Seq<char>) -> Seq<char>
    decreases s.len(),
{
    if s.len() > 0 && is_space(s[0]) {
        trim_start(s.drop_first())
    } else {
        s
    }
}

/// `s` without its trailing whitespace.
pub open spec fn trim_end(s: Seq<char>) -> Seq<char>
    decreases s.len(),
{
    if s.len() > 0 && is_space(s.last()) {
        trim_end(s.drop_last())
    } else {
        s
    }
}

/// `s` without leading and trailing whitespace, as `str::trim` gives it.
pub open spec fn trim(s: Seq<char>) -> Seq<char> {
    trim_end(trim_start(s))
}

/// The pieces of `s[start..]`, scanning for `sep` from position `i`:
/// non-overlapping occurrences of `sep`, found left to right, end a piece.
pub open spec fn split_from(s: Seq<char>, sep: Seq<char>, start: int, i: int) -> Seq<Seq<char>>
    decreases s.len() - i,
{
    if sep.len() == 0 || i < 0 || i + sep.len() > s.len() {
        seq![s.subrange(start, s.len() as int)]
    } else if s.subrange(i, i + sep.len()) == sep {
        seq![s.subrange(start, i)] + split_from(s, sep, i + sep.len(), i + sep.len())
    } else {
        split_from(s, sep, start, i + 1)
    }
}

/// The pieces of `s` between occurrences of `sep`, as `str::split` yields
/// them (always at least one piece).
pub open spec fn split(s: Seq<char>, sep: Seq<char>) -> Seq<Seq<char>> {
    split_from(s, sep, 0, 0)
}

/// Whether `t` occurs in `s`.
pub open spec fn contains(s: Seq<char>, t: Seq<char>) -> bool {
    exists|i: int| 0 <= i && i + t.len() <= s.len() && #[trigger] s.subrange(i, i + t.len()) == t
}

pub open spec fn is_digit(c: char) -> bool {
    '0' <= c && c <= '9'
}

pub open spec fn all_digits(s: Seq<char>) -> bool {
    forall|i: int| 0 <= i < s.len() ==> is_digit(#[trigger] s[i])
}

/// The number that the decimal digits `s` write.
pub open spec fn digits_value(s: Seq<char>) -> int
    decreases s.len(),
{
    if s.len() == 0 {
        0
    } else {
        10 * digits_value(s.drop_last()) + (s.last() as int - '0' as int)
    }
}

/// The integer that `s` writes: an optional `+` or `-`, then one or more
/// decimal digits, nothing else.
pub open spec fn int_text(s: Seq<char>) -> Option<int> {
    if s.len() > 0 && (s[0] == '-' || s[0] == '+') {
        let body = s.drop_first();
        if body.len() > 0 && all_digits(body) {
            Some(
                if s[0] == '-' {
                    -digits_value(body)
                } else {
                    digits_value(body)
                },
            )
        } else {
            None
        }
    } else if s.len() > 0 && all_digits(s) {
        Some(digits_value(s))
    } else {
        None
    }
}

/// What `str::parse::<i64>` returns for `s`.
pub open spec fn parse_i64(s: Seq<char>) -> Option<i64> {
    match int_text(s) {
        Some(v) => if i64::MIN <= v <= i64::MAX {
            Some(v as i64)
        } else {
            None
        },
        None => None,
    }
}

/// Scanning past positions where `sep` does not occur changes nothing.
pub proof fn lemma_split_skip(s: Seq<char>, sep: Seq<char>, start: int, i: int, j: int)
    requires
        sep.len() > 0,
        0 <= start <= i <= j <= s.len(),
        forall|k: int| i <= k < j && k + sep.len() <= s.len() ==> #[trigger] s.subrange(k, k + sep.len()) != sep,
    ensures
        split_from(s, sep, start, i) == split_from(s, sep, start, j),
    decreases j - i,
{
    if i < j && i + sep.len() <= s.len() {
        lemma_split_skip(s, sep, start, i + 1, j);
    }
}

/// Splitting always gives at least one piece.
pub proof fn lemma_split_nonempty(s: Seq<char>, sep: Seq<char>, start: int, i: int)
    ensures
        split_from(s, sep, start, i).len() >= 1,
    decreases s.len() - i,
{
    if sep.len() == 0 || i < 0 || i + sep.len() > s.len() {
    } else if s.subrange(i, i + sep.len()) == sep {
        lemma_split_nonempty(s, sep, i + sep.len(), i + sep.len());
    } else {
        lemma_split_nonempty(s, sep, start, i + 1);
    }
}

/// Text without `c` is one piece when split on `c`, and `c` ends the piece
/// before it.
pub proof fn lemma_split_at_char(s: Seq<char>, c: char, start: int, p: int)
    requires
        0 <= start <= p <= s.len(),
        forall|k: int| start <= k < p ==> s[k] != c,
    ensures
        p == s.len() ==> split_from(s, seq![c], start, start) == seq![s.subrange(start, s.len() as int)],
        p < s.len() && s[p] == c ==> split_from(s, seq![c], start, start) == seq![s.subrange(start, p)]
            + split_from(s, seq![c], p + 1, p + 1),
{
    let sep = seq![c];
    assert forall|k: int| start <= k < p && k + sep.len() <= s.len() implies #[trigger] s.subrange(k, k + sep.len()) != sep by {
        assert(s.subrange(k, k + 1)[0] == s[k]);
    }
    lemma_split_skip(s, sep, start, start, p);
    if p < s.len() && s[p] == c {
        assert(s.subrange(p, p + 1) =~= sep);
    }
}

/// An integer text holds only digits, after an optional sign.
pub proof fn lemma_int_text_chars(s: Seq<char>)
    requires
        int_text(s) is Some,
    ensures
        s.len() > 0,
        forall|k: int| 0 <= k < s.len() ==> is_digit(#[trigger] s[k]) || (k == 0 && (s[k] == '-' || s[k] == '+')),
{
    if s.len() > 0 && (s[0] == '-' || s[0] == '+') {
        assert forall|k: int| 0 <= k < s.len() implies is_digit(#[trigger] s[k]) || (k == 0 && (s[k] == '-' || s[k] == '+')) by {
            if k > 0 {
                assert(s.drop_first()[k - 1] == s[k]);
            }
        }
    }
}

/// The texts that `ranges` cut out of `s`.
pub open spec fn range_texts(s: Seq<char>, ranges: Seq<(usize, usize)>) -> Seq<Seq<char>> {
    Seq::new(ranges.len(), |k: int| s.subrange(ranges[k].0 as int, ranges[k].1 as int))
}

pub open spec fn ranges_within(ranges: Seq<(usize, usize)>, lo: int, hi: int) -> bool {
    forall|k: int|
        0 <= k < ranges.len() ==> lo <= (#[trigger] ranges[k]).0 && ranges[k].0 <= ranges[k].1
            && ranges[k].1 <= hi
}

/// The characters `a..b` of `line`, as a new string.
pub fn text_of(line: &str, a: usize, b: usize) -> (r: String)
    requires
        a <= b <= line@.len(),
    ensures
        r@ == line@.subrange(a as int, b as int),
{
    line.substring_char(a, b).to_owned()
}

/// The length of the run of non-whitespace characters that starts `s`.
pub open spec fn word_len(s: Seq<char>) -> nat
    decreases s.len(),
{
    if s.len() > 0 && !is_space(s[0]) {
        1 + word_len(s.drop_first())
    } else {
        0
    }
}

/// The first whitespace-delimited word of `s`, as `split_whitespace` gives
/// it; `None` when `s` is blank.
pub open spec fn first_word(s: Seq<char>) -> Option<Seq<char>> {
    let t = trim_start(s);
    if t.len() == 0 {
        None
    } else {
        Some(t.take(word_len(t) as int))
    }
}

/// The range of the first word of `cs`; `None` when `cs` is blank.
pub fn first_word_range(cs: &Vec<char>) -> (r: Option<(usize, usize)>)
    ensures
        r is None <==> first_word(cs@) is None,
        r matches Some((a, b)) ==> a <= b <= cs.len() && first_word(cs@) == Some(
            cs@.subrange(a as int, b as int),
        ),
{
    let n = cs.len();
    assert(cs@.subrange(0, n as int) =~= cs@);
    let mut a: usize = 0;
    while a < n && char_is_space(cs[a])
        invariant
            a <= n == cs.len(),
            trim_start(cs@) == trim_start(cs@.subrange(a as int, n as int)),
        decreases n - a,
    {
        assert(cs@.subrange(a as int, n as int).drop_first() =~= cs@.subrange(a + 1, n as int));
        a = a + 1;
    }
    let ghost t = cs@.subrange(a as int, n as int);
    assert(trim_start(t) == t);
    if a == n {
        return None;
    }
    let mut b = a;
    while b < n && !char_is_space(cs[b])
        invariant
            a <= b <= n == cs.len(),
            t == cs@.subrange(a as int, n as int),
            word_len(t) == (b - a) + word_len(cs@.subrange(b as int, n as int)),
        decreases n - b,
    {
        assert(cs@.subrange(b as int, n as int).drop_first() =~= cs@.subrange(b + 1, n as int));
        b = b + 1;
    }
    assert(t.take(b - a) =~= cs@.subrange(a as int, b as int));
    Some((a, b))
}

/// Executable test for [`is_space`].
pub fn char_is_space(c: char) -> (r: bool)
    ensures
        r == is_space(c),
{
    ('\u{9}' <= c && c <= '\u{d}') || c == ' ' || c == '\u{85}' || c == '\u{a0}' || c == '\u{1680}'
        || ('\u{2000}' <= c && c <= '\u{200a}') || c == '\u{2028}' || c == '\u{2029}' || c
        == '\u{202f}' || c == '\u{205f}' || c == '\u{3000}'
}

/// The characters of `s`, in order.
pub fn chars_of(s: &str) -> (r: Vec<char>)
    ensures
        r@ == s@,
{
    broadcast use vstd::string::axiom_spec_iter;

    let mut out: Vec<char> = Vec::new();
    for c in it: s.chars()
        invariant
            out@ == it.seq().take(it.index() as int),
    {
        out.push(c);
        assert(out@ =~= it.seq().take(it.index() + 1));
    }
    assert(out@ =~= s@);
    out
}

/// The range `lo..hi` of `cs` trimmed of whitespace on both ends.
pub fn trim_range(cs: &Vec<char>, lo: usize, hi: usize) -> (r: (usize, usize))
    requires
        lo <= hi <= cs.len(),
    ensures
        lo <= r.0 <= r.1 <= hi,
        cs@.subrange(r.0 as int, r.1 as int) == trim(cs@.subrange(lo as int, hi as int)),
{
    let mut a = lo;
    while a < hi && char_is_space(cs[a])
        invariant
            lo <= a <= hi <= cs.len(),
            trim_start(cs@.subrange(lo as int, hi as int)) == trim_start(
                cs@.subrange(a as int, hi as int),
            ),
        decreases hi - a,
    {
        assert(cs@.subrange(a as int, hi as int).drop_first() =~= cs@.subrange(
            a + 1,
            hi as int,
        ));
        a = a + 1;
    }
    let mut b = hi;
    while b > a && char_is_space(cs[b - 1])
        invariant
            lo <= a <= b <= hi <= cs.len(),
            trim_start(cs@.subrange(lo as int, hi as int)) == cs@.subrange(a as int, hi as int),
            trim_end(cs@.subrange(a as int, hi as int)) == trim_end(
                cs@.subrange(a as int, b as int),
            ),
        decreases b - a,
    {
        assert(cs@.subrange(a as int, b as int).drop_last() =~= cs@.subrange(
            a as int,
            b - 1,
        ));
        b = b - 1;
    }
    (a, b)
}

/// Whether `sep` occurs in `cs` at position `i`.
pub fn matches_at(cs: &Vec<char>, i: usize, sep: &Vec<char>) -> (r: bool)
    requires
        i + sep.len() <= cs.len(),
    ensures
        r == (cs@.subrange(i as int, i + sep.len()) == sep@),
{
    let mut k: usize = 0;
    while k < sep.len()
        invariant
            k <= sep.len(),
            i + sep.len() <= cs.len(),
            forall|q: int| 0 <= q < k ==> cs@[i + q] == sep@[q],
        decreases sep.len() - k,
    {
        if cs[i + k] != sep[k] {
            assert(cs@.subrange(i as int, i + sep.len())[k as int] != sep@[k as int]);
            return false;
        }
        k = k + 1;
    }
    assert(cs@.subrange(i as int, i + sep.len()) =~= sep@);
    true
}

/// The ranges of the pieces of `cs[lo..hi]` between occurrences of `sep`.
pub fn split_ranges(cs: &Vec<char>, lo: usize, hi: usize, sep: &Vec<char>) -> (r: Vec<(usize, usize)>)
    requires
        lo <= hi <= cs.len(),
        sep.len() > 0,
    ensures
        ranges_within(r@, lo as int, hi as int),
        range_texts(cs@, r@) == split(cs@.subrange(lo as int, hi as int), sep@),
        r.len() >= 1,
        r[0].0 == lo,
        r[r.len() - 1].1 == hi,
        forall|k: int| 0 <= k < r.len() - 1 ==> #[trigger] r[k].1 + sep.len() == r[k + 1].0,
        forall|j: int, k: int| 0 <= j < k < r.len() ==> #[trigger] r[j].1 + sep.len() <= #[trigger] r[k].0,
{
    let ghost sub = cs@.subrange(lo as int, hi as int);
    let mut out: Vec<(usize, usize)> = Vec::new();
    let mut start = lo;
    let mut i = lo;
    while sep.len() <= hi - i
        invariant
            lo <= start <= i <= hi <= cs.len(),
            sep.len() > 0,
            sub == cs@.subrange(lo as int, hi as int),
            ranges_within(out@, lo as int, hi as int),
            out.len() == 0 ==> start == lo,
            out.len() > 0 ==> out[0].0 == lo && out[out.len() - 1].1 + sep.len() == start,
            forall|k: int| 0 <= k < out.len() - 1 ==> #[trigger] out[k].1 + sep.len() == out[k + 1].0,
            forall|j: int, k: int| 0 <= j < k < out.len() ==> #[trigger] out[j].1 + sep.len() <= #[trigger] out[k].0,
            forall|j: int| 0 <= j < out.len() ==> #[trigger] out[j].1 + sep.len() <= start,
            range_texts(cs@, out@) + split_from(sub, sep@, start - lo, i - lo) == split(
                sub,
                sep@,
            ),
        decreases hi - i,
    {
        let ghost before = range_texts(cs@, out@);
        assert(sub.subrange(i - lo, i - lo + sep.len()) =~= cs@.subrange(
            i as int,
            i + sep.len(),
        ));
        if matches_at(cs, i, sep) {
            assert(sub.subrange(start - lo, i - lo) =~= cs@.subrange(start as int, i as int));
            out.push((start, i));
            assert(range_texts(cs@, out@) =~= before.push(cs@.subrange(start as int, i as int)));
            let ghost rest = split_from(sub, sep@, i + sep.len() - lo, i + sep.len() - lo);
            assert(before + (seq![cs@.subrange(start as int, i as int)] + rest) =~= before.push(
                cs@.subrange(start as int, i as int),
            ) + rest);
            start = i + sep.len();
            i = i + sep.len();
        } else {
            i = i + 1;
        }
    }
    let ghost before = range_texts(cs@, out@);
    assert(sub.subrange(start - lo, sub.len() as int) =~= cs@.subrange(start as int, hi as int));
    out.push((start, hi));
    assert(range_texts(cs@, out@) =~= before + seq![cs@.subrange(start as int, hi as int)]);
    out
}

/// Whether `pat` occurs in `cs[lo..hi]`.
pub fn contains_at_any(cs: &Vec<char>, lo: usize, hi: usize, pat: &Vec<char>) -> (r: bool)
    requires
        lo <= hi <= cs.len(),
    ensures
        r == contains(cs@.subrange(lo as int, hi as int), pat@),
{
    let ghost sub = cs@.subrange(lo as int, hi as int);
    if pat.len() == 0 {
        assert(sub.subrange(0, 0 + pat@.len() as int) =~= pat@);
        return true;
    }
    let mut i = lo;
    while pat.len() <= hi - i
        invariant
            lo <= i <= hi <= cs.len(),
            pat.len() > 0,
            sub == cs@.subrange(lo as int, hi as int),
            forall|j: int|
                0 <= j < i - lo && j + pat.len() <= sub.len() ==> #[trigger] sub.subrange(
                    j,
                    j + pat.len(),
                ) != pat@,
        decreases hi - i,
    {
        assert(sub.subrange(i - lo, i - lo + pat.len()) =~= cs@.subrange(
            i as int,
            i + pat.len(),
        ));
        if matches_at(cs, i, pat) {
            return true;
        }
        i = i + 1;
    }
    assert forall|j: int| 0 <= j && j + pat.len() <= sub.len() implies #[trigger] sub.subrange(
        j,
        j + pat.len(),
    ) != pat@ by {
        assert(j < i - lo);
    }
    false
}

/// Whether `cs[lo..hi]` holds decimal digits only.
pub fn all_digits_range(cs: &Vec<char>, lo: usize, hi: usize) -> (r: bool)
    requires
        lo <= hi <= cs.len(),
    ensures
        r == all_digits(cs@.subrange(lo as int, hi as int)),
{
    let ghost sub = cs@.subrange(lo as int, hi as int);
    let mut i = lo;
    while i < hi
        invariant
            lo <= i <= hi <= cs.len(),
            sub == cs@.subrange(lo as int, hi as int),
            forall|q: int| 0 <= q < i - lo ==> is_digit(#[trigger] sub[q]),
        decreases hi - i,
    {
        if !('0' <= cs[i] && cs[i] <= '9') {
            assert(!is_digit(sub[i - lo]));
            return false;
        }
        i = i + 1;
    }
    true
}

/// What `str::parse::<i64>` returns for the text `cs[lo..hi]`.
pub fn parse_i64_range(cs: &Vec<char>, lo: usize, hi: usize) -> (r: Option<i64>)
    requires
        lo <= hi <= cs.len(),
    ensures
        r == parse_i64(cs@.subrange(lo as int, hi as int)),
{
    let ghost s = cs@.subrange(lo as int, hi as int);
    if lo == hi {
        return None;
    }
    assert(s[0] == cs@[lo as int]);
    let neg = cs[lo] == '-';
    let signed = neg || cs[lo] == '+';
    let b = if signed {
        lo + 1
    } else {
        lo
    };
    let ghost body = cs@.subrange(b as int, hi as int);
    assert(signed ==> body =~= s.drop_first());
    assert(!signed ==> body =~= s);
    if b == hi {
        return None;
    }
    let limit: i128 = 9223372036854775808;
    let mut acc: i128 = 0;
    let mut over = false;
    let mut j = b;
    while j < hi
        invariant
            b <= j <= hi <= cs.len(),
            lo < hi,
            s == cs@.subrange(lo as int, hi as int),
            neg == (cs@[lo as int] == '-'),
            signed == (neg || cs@[lo as int] == '+'),
            s[0] == cs@[lo as int],
            b == if signed {
                lo + 1
            } else {
                lo as int
            },
            signed ==> body == s.drop_first(),
            !signed ==> body == s,
            body == cs@.subrange(b as int, hi as int),
            limit == 9223372036854775808,
            all_digits(cs@.subrange(b as int, j as int)),
            !over ==> acc == digits_value(cs@.subrange(b as int, j as int)) && 0 <= acc <= limit,
            over ==> digits_value(cs@.subrange(b as int, j as int)) > limit,
        decreases hi - j,
    {
        let c = cs[j];
        if !('0' <= c && c <= '9') {
            assert(body[j - b] == c);
            assert(!is_digit(body[j - b]));
            return None;
        }
        let ghost pre = cs@.subrange(b as int, j as int);
        let ghost next = cs@.subrange(b as int, j + 1);
        assert(next.drop_last() =~= pre);
        assert(next.last() == c);
        assert(digits_value(next) == 10 * digits_value(pre) + (c as int - '0' as int));
        if !over {
            acc = acc * 10 + (c as u32 - '0' as u32) as i128;
            if acc > limit {
                over = true;
            }
        }
        j = j + 1;
    }
    assert(cs@.subrange(b as int, j as int) =~= body);
    if over {
        return None;
    }
    if neg {
        Some((0 - acc) as i64)
    } else if acc > 9223372036854775807 {
        None
    } else {
        Some(acc as i64)
    }
}

} // verus!
