use vstd::prelude::*;
use crate::minigrep::chars_of;

verus! {

/// A draw from the thread's random number generator, uniform in
/// `low..high`.  `rand::Rng::gen_range` panics when `low >= high`, which
/// `requires` rules out; it returns a value at least `low` and below `high`.
#[verifier::external_body]
fn random_in_range(low: u32, high: u32) -> (n: u32)
    requires
        low < high,
    ensures
        low <= n < high,
{
    rand::Rng::gen_range(&mut rand::thread_rng(), low, high)
}

/// The number to guess: drawn at random between 1 and 100.
pub fn secret_number() -> (n: u32)
    ensures
        1 <= n <= 100,
{
    random_in_range(1, 101)
}

/// The characters that `char::is_whitespace` accepts: those with the
/// Unicode property White_Space.
pub open spec fn is_whitespace(c: char) -> bool {
    ||| '\u{9}' <= c <= '\u{d}'
    ||| c == ' '
    ||| c == '\u{85}'
    ||| c == '\u{a0}'
    ||| c == '\u{1680}'
    ||| '\u{2000}' <= c <= '\u{200a}'
    ||| c == '\u{2028}'
    ||| c == '\u{2029}'
    ||| c == '\u{202f}'
    ||| c == '\u{205f}'
    ||| c == '\u{3000}'
}

/// Among the ASCII characters, whitespace is exactly tab, line feed,
/// vertical tab, form feed, carriage return and space; digits and `+` are
/// never whitespace.
pub proof fn lemma_ascii_whitespace(c: char)
    ensures
        (c as u32) < 0x80 ==> (is_whitespace(c) <==> (c == '\t' || c == '\n' || c == '\u{b}' || c
            == '\u{c}' || c == '\r' || c == ' ')),
        is_digit(c) || c == '+' ==> !is_whitespace(c),
{
}

/// `s` without its leading whitespace.
pub open spec fn trim_start(s: Seq<char>) -> Seq<char>
    decreases s.len(),
{
    if s.len() > 0 && is_whitespace(s[0]) {
        trim_start(s.drop_first())
    } else {
        s
    }
}

/// `s` without its trailing whitespace.
pub open spec fn trim_end(s: Seq<char>) -> Seq<char>
    decreases s.len(),
{
    if s.len() > 0 && is_whitespace(s.last()) {
        trim_end(s.drop_last())
    } else {
        s
    }
}

/// `s` without leading and trailing whitespace, as `str::trim` gives it.
pub open spec fn trim(s: Seq<char>) -> Seq<char> {
    trim_end(trim_start(s))
}

/// Trimming `s` followed by `t` leaves `t` trimmed at the start when `s` is
/// all whitespace, and otherwise `s` trimmed at the start followed by `t`.
proof fn lemma_trim_start_append(s: Seq<char>, t: Seq<char>)
    ensures
        trim_start(s + t) == if trim_start(s).len() == 0 {
            trim_start(t)
        } else {
            trim_start(s) + t
        },
    decreases s.len(),
{
    if s.len() == 0 {
        assert(s + t =~= t);
    } else {
        assert((s + t).drop_first() =~= s.drop_first() + t);
        assert((s + t)[0] == s[0]);
        if is_whitespace(s[0]) {
            lemma_trim_start_append(s.drop_first(), t);
        }
    }
}

/// Whitespace before or after the text is trimmed away: a whitespace
/// character added at either end leaves `trim` unchanged, so the guess read
/// from the line is the same.
pub proof fn lemma_trim_ignores_edge_whitespace(c: char, s: Seq<char>)
    requires
        is_whitespace(c),
    ensures
        trim(seq![c] + s) == trim(s),
        trim(s + seq![c]) == trim(s),
        parse_u32(trim(seq![c] + s)) == parse_u32(trim(s)),
        parse_u32(trim(s + seq![c])) == parse_u32(trim(s)),
{
    assert((seq![c] + s).drop_first() =~= s);
    lemma_trim_start_append(s, seq![c]);
    let ts = trim_start(s);
    if ts.len() == 0 {
        assert(seq![c].drop_first() =~= Seq::<char>::empty());
        assert(trim_start(Seq::<char>::empty()) =~= Seq::<char>::empty());
        assert(trim_start(seq![c]) =~= Seq::<char>::empty());
    } else {
        assert((ts + seq![c]).drop_last() =~= ts);
    }
}

/// `c` is one of the ASCII digits `0` to `9`.
pub open spec fn is_digit(c: char) -> bool {
    '0' <= c <= '9'
}

/// The number that a run of decimal digits denotes.
pub open spec fn digits_value(s: Seq<char>) -> nat
    decreases s.len(),
{
    if s.len() == 0 {
        0
    } else {
        digits_value(s.drop_last()) * 10 + ((s.last() as u32) - ('0' as u32)) as nat
    }
}

/// Every character of `s` is an ASCII digit.
pub open spec fn all_digits(s: Seq<char>) -> bool {
    forall|i: int| 0 <= i < s.len() ==> is_digit(#[trigger] s[i])
}

/// `s` without a leading `+`, if it has one.
pub open spec fn unsigned_part(s: Seq<char>) -> Seq<char> {
    if s.len() > 0 && s[0] == '+' {
        s.drop_first()
    } else {
        s
    }
}

/// What `str::parse::<u32>` gives for `s`: an optional `+` followed by
/// one or more ASCII digits whose value fits in a `u32`; anything else is
/// an error.
pub open spec fn parse_u32(s: Seq<char>) -> Option<u32> {
    let body = unsigned_part(s);
    if body.len() > 0 && all_digits(body) && digits_value(body) <= u32::MAX {
        Some(digits_value(body) as u32)
    } else {
        None
    }
}

/// Whether `c` is whitespace in the sense of `char::is_whitespace`.
fn is_whitespace_exec(c: char) -> (b: bool)
    ensures
        b == is_whitespace(c),
{
    ('\u{9}' <= c && c <= '\u{d}') || c == ' ' || c == '\u{85}' || c == '\u{a0}' || c == '\u{1680}'
        || ('\u{2000}' <= c && c <= '\u{200a}') || c == '\u{2028}' || c == '\u{2029}' || c
        == '\u{202f}' || c == '\u{205f}' || c == '\u{3000}'
}

/// The bounds of `v` without its leading and trailing whitespace.
fn trim_bounds(v: &Vec<char>) -> (bounds: (usize, usize))
    ensures
        bounds.0 <= bounds.1 <= v@.len(),
        v@.subrange(bounds.0 as int, bounds.1 as int) == trim(v@),
{
    let ghost s = v@;
    let n = v.len();
    let mut a: usize = 0;
    assert(s.skip(0) =~= s);
    while a < n && is_whitespace_exec(v[a])
        invariant
            n == s.len(),
            s == v@,
            a <= n,
            trim_start(s) == trim_start(s.skip(a as int)),
        decreases n - a,
    {
        assert(s.skip(a as int).drop_first() =~= s.skip(a + 1));
        a += 1;
    }
    let ghost t = s.skip(a as int);
    assert(trim_start(s) == t);
    let mut b: usize = n;
    assert(t.take(t.len() as int) =~= t);
    while b > a && is_whitespace_exec(v[b - 1])
        invariant
            n == s.len(),
            s == v@,
            a <= b <= n,
            t == s.skip(a as int),
            trim_end(t) == trim_end(t.take(b - a)),
        decreases b,
    {
        assert(t.take(b - a).drop_last() =~= t.take(b - a - 1));
        assert(t.take(b - a).last() == v@[b - 1]);
        b -= 1;
    }
    assert(t.take(b - a) =~= s.subrange(a as int, b as int));
    if b > a {
        assert(t.take(b - a).last() == v@[b - 1]);
    }
    (a, b)
}

/// A run of digits is worth at least any of its prefixes.
proof fn lemma_digits_value_prefix(s: Seq<char>, k: int)
    requires
        0 <= k <= s.len(),
        forall|i: int| 0 <= i < s.len() ==> is_digit(#[trigger] s[i]),
    ensures
        digits_value(s.take(k)) <= digits_value(s),
    decreases s.len(),
{
    if k < s.len() {
        let d = s.drop_last();
        assert(d.take(k) =~= s.take(k));
        assert forall|i: int| 0 <= i < d.len() implies is_digit(#[trigger] d[i]) by {
            assert(d[i] == s[i]);
        }
        lemma_digits_value_prefix(d, k);
    } else {
        assert(s.take(k) =~= s);
    }
}

/// Parses `v[from..to]` as `str::parse::<u32>` does.
fn parse_range(v: &Vec<char>, from: usize, to: usize) -> (r: Option<u32>)
    requires
        from <= to <= v@.len(),
    ensures
        r == parse_u32(v@.subrange(from as int, to as int)),
{
    let ghost s = v@.subrange(from as int, to as int);
    let mut i = from;
    if i < to && v[i] == '+' {
        i += 1;
    }
    let ghost body = v@.subrange(i as int, to as int);
    assert(body == unsigned_part(s));
    if i == to {
        return None;
    }
    let start = i;
    let mut acc: u64 = 0;
    assert(body.take(0) =~= Seq::<char>::empty());
    while i < to
        invariant
            from <= start <= i <= to <= v@.len(),
            body == v@.subrange(start as int, to as int),
            s == v@.subrange(from as int, to as int),
            body == unsigned_part(s),
            acc == digits_value(body.take(i - start)),
            acc <= u32::MAX,
            forall|j: int| 0 <= j < i - start ==> is_digit(#[trigger] body[j]),
        decreases to - i,
    {
        let c = v[i];
        assert(c == body[i - start]);
        if !('0' <= c && c <= '9') {
            assert(!is_digit(body[i - start]));
            return None;
        }
        assert(body.take(i - start + 1).drop_last() =~= body.take(i - start));
        acc = acc * 10 + ((c as u32) - ('0' as u32)) as u64;
        assert(body.take(i - start + 1).last() == c);
        assert(acc == digits_value(body.take(i - start + 1)));
        if acc > 0xffff_ffff {
            proof {
                if all_digits(body) {
                    lemma_digits_value_prefix(body, i - start + 1);
                }
            }
            return None;
        }
        i += 1;
    }
    assert(body.take(i - start) =~= body);
    Some(acc as u32)
}

/// The number typed on a line: the line without surrounding whitespace,
/// parsed as `str::parse::<u32>` does; `None` where that fails.
pub fn parse_guess(line: &str) -> (guess: Option<u32>)
    ensures
        guess == parse_u32(trim(line@)),
{
    let v = chars_of(line);
    let (from, to) = trim_bounds(&v);
    parse_range(&v, from, to)
}

/// How a guess compares with the secret number.
#[derive(Debug, PartialEq, Eq)]
pub enum Verdict {
    TooLow,
    TooHigh,
    Correct,
}

/// Compares a guess with the secret number.
pub fn judge(guess: u32, secret: u32) -> (verdict: Verdict)
    ensures
        guess < secret ==> verdict == Verdict::TooLow,
        guess > secret ==> verdict == Verdict::TooHigh,
        guess == secret ==> verdict == Verdict::Correct,
{
    if guess < secret {
        Verdict::TooLow
    } else if guess > secret {
        Verdict::TooHigh
    } else {
        Verdict::Correct
    }
}

} // verus!
