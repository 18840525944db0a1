//! Scanners over command output and configuration text: the first match of
//! a key followed by a quoted value or by a run of digits, and number parsing.
use vstd::prelude::*;
use crate::text::{occurs_at, occurs_at_exec, decimal, radix_digits, digit_char};
use crate::chars::{is_decimal_digit, is_decimal_digit_exec, is_ascii_digit};

verus! {

/// The first index at or after `from` holding `c`.
pub open spec fn first_index_of(s: Seq<char>, c: char, from: int) -> Option<int>
    decreases s.len() - from,
{
    if from < 0 || from >= s.len() {
        None
    } else if s[from] == c {
        Some(from)
    } else {
        first_index_of(s, c, from + 1)
    }
}

pub proof fn lemma_first_index_of(s: Seq<char>, c: char, from: int)
    requires
        0 <= from,
    ensures
        first_index_of(s, c, from) matches Some(q) ==> from <= q < s.len() && s[q] == c && forall|j: int|
            from <= j < q ==> s[j] != c,
        first_index_of(s, c, from) is None ==> forall|j: int| from <= j < s.len() ==> s[j] != c,
    decreases s.len() - from,
{
    if from < s.len() && s[from] != c {
        lemma_first_index_of(s, c, from + 1);
    }
}

/// Index of the first `c` at or after `from`.
pub fn find_char_from(s: &[char], c: char, from: usize) -> (r: Option<usize>)
    ensures
        r matches Some(q) ==> first_index_of(s@, c, from as int) == Some(q as int),
        r is None ==> first_index_of(s@, c, from as int) is None,
{
    let mut i = from;
    while i < s.len()
        invariant
            from <= i,
            first_index_of(s@, c, from as int) == first_index_of(s@, c, i as int),
        decreases s@.len() - i,
    {
        if s[i] == c {
            return Some(i);
        }
        i = i + 1;
    }
    None
}

/// The text between `key` at `p` and the next `"`, when `key` occurs at `p`
/// and a `"` follows (the pattern `key([^"]*)"` matched at `p`).
pub open spec fn quoted_at(s: Seq<char>, key: Seq<char>, p: int) -> Option<Seq<char>> {
    if occurs_at(s, key, p) {
        match first_index_of(s, '"', p + key.len()) {
            Some(q) => Some(s.subrange(p + key.len(), q)),
            None => None,
        }
    } else {
        None
    }
}

/// The capture of the leftmost match of `key([^"]*)"` at or after `pos`.
pub open spec fn first_quoted(s: Seq<char>, key: Seq<char>, pos: int) -> Option<Seq<char>>
    decreases s.len() + 1 - pos,
{
    if pos < 0 || pos > s.len() {
        None
    } else if quoted_at(s, key, pos) is Some {
        quoted_at(s, key, pos)
    } else {
        first_quoted(s, key, pos + 1)
    }
}

/// A copy of `s[from..to]`.
pub fn copy_chars(s: &[char], from: usize, to: usize) -> (r: Vec<char>)
    requires
        from <= to <= s@.len(),
    ensures
        r@ == s@.subrange(from as int, to as int),
{
    let mut r: Vec<char> = Vec::new();
    let mut k = from;
    while k < to
        invariant
            from <= k <= to,
            to <= s@.len(),
            r@ == s@.subrange(from as int, k as int),
        decreases to - k,
    {
        r.push(s[k]);
        assert(s@.subrange(from as int, k + 1) == s@.subrange(from as int, k as int).push(s@[k as int]));
        k = k + 1;
    }
    r
}

/// The capture of the first match of `key([^"]*)"` (key ends before the opening quote's text).
pub fn find_quoted(s: &[char], key: &[char]) -> (r: Option<Vec<char>>)
    requires
        key@.len() > 0,
    ensures
        r matches Some(v) ==> first_quoted(s@, key@, 0) == Some(v@),
        r is None ==> first_quoted(s@, key@, 0) is None,
{
    let mut pos: usize = 0;
    while pos < s.len()
        invariant
            pos <= s@.len(),
            first_quoted(s@, key@, 0) == first_quoted(s@, key@, pos as int),
            key@.len() > 0,
        decreases s@.len() - pos,
    {
        if occurs_at_exec(s, key, pos) {
            match find_char_from(s, '"', pos + key.len()) {
                Some(q) => {
                    proof {
                        lemma_first_index_of(s@, '"', pos + key@.len());
                    }
                    return Some(copy_chars(s, pos + key.len(), q));
                },
                None => {},
            }
        }
        pos = pos + 1;
    }
    assert(!occurs_at(s@, key@, pos as int));
    assert(first_quoted(s@, key@, pos + 1) is None);
    None
}

/// The end of the run of decimal digits starting at `i`.
pub open spec fn digit_run_end(s: Seq<char>, i: int) -> int
    decreases s.len() - i,
{
    if i < 0 || i >= s.len() || !is_decimal_digit(s[i]) {
        i
    } else {
        digit_run_end(s, i + 1)
    }
}

pub proof fn lemma_digit_run_end(s: Seq<char>, i: int)
    requires
        0 <= i <= s.len(),
    ensures
        i <= digit_run_end(s, i) <= s.len(),
        forall|j: int| i <= j < digit_run_end(s, i) ==> is_decimal_digit(s[j]),
    decreases s.len() - i,
{
    if i < s.len() && is_decimal_digit(s[i]) {
        lemma_digit_run_end(s, i + 1);
    }
}

/// End of the run of decimal digits starting at `i`.
pub fn digit_run_end_exec(s: &[char], i: usize) -> (r: usize)
    requires
        i <= s@.len(),
    ensures
        r == digit_run_end(s@, i as int),
{
    let mut j = i;
    while j < s.len() && is_decimal_digit_exec(s[j])
        invariant
            i <= j <= s@.len(),
            digit_run_end(s@, i as int) == digit_run_end(s@, j as int),
        decreases s@.len() - j,
    {
        j = j + 1;
    }
    j
}

/// The digit run after `key` at `p` (the pattern `key(\d+)` matched at `p`).
pub open spec fn digits_at(s: Seq<char>, key: Seq<char>, p: int) -> Option<Seq<char>> {
    if occurs_at(s, key, p) && p + key.len() < s.len() && is_decimal_digit(s[p + key.len()]) {
        Some(s.subrange(p + key.len(), digit_run_end(s, p + key.len())))
    } else {
        None
    }
}

/// The capture of the leftmost match of `key(\d+)` at or after `pos`.
pub open spec fn first_digits(s: Seq<char>, key: Seq<char>, pos: int) -> Option<Seq<char>>
    decreases s.len() + 1 - pos,
{
    if pos < 0 || pos > s.len() {
        None
    } else if digits_at(s, key, pos) is Some {
        digits_at(s, key, pos)
    } else {
        first_digits(s, key, pos + 1)
    }
}

/// The capture of the first match of `key(\d+)`.
pub fn find_digits(s: &[char], key: &[char]) -> (r: Option<Vec<char>>)
    ensures
        r matches Some(v) ==> first_digits(s@, key@, 0) == Some(v@),
        r is None ==> first_digits(s@, key@, 0) is None,
{
    let mut pos: usize = 0;
    while pos < s.len()
        invariant
            pos <= s@.len(),
            first_digits(s@, key@, 0) == first_digits(s@, key@, pos as int),
        decreases s@.len() - pos,
    {
        if occurs_at_exec(s, key, pos) && pos + key.len() < s.len() && is_decimal_digit_exec(s[pos + key.len()]) {
            let start = pos + key.len();
            let end = digit_run_end_exec(s, start);
            proof {
                lemma_digit_run_end(s@, start as int);
            }
            return Some(copy_chars(s, start, end));
        }
        pos = pos + 1;
    }
    assert(first_digits(s@, key@, pos + 1) is None);
    None
}

/// The value of a string of ASCII digits.
pub open spec fn digits_value(d: Seq<char>) -> nat
    decreases d.len(),
{
    if d.len() == 0 {
        0
    } else {
        digits_value(d.drop_last()) * 10 + (d.last() as nat - '0' as nat) as nat
    }
}

pub open spec fn all_ascii_digits(d: Seq<char>) -> bool {
    forall|i: int| 0 <= i < d.len() ==> #[trigger] is_ascii_digit(d[i])
}

/// `u32::from_str`: an optional `+`, then one or more ASCII digits whose value fits.
pub open spec fn parse_u32_spec(s: Seq<char>) -> Option<u32> {
    let d = if s.len() > 0 && s[0] == '+' { s.drop_first() } else { s };
    if d.len() > 0 && all_ascii_digits(d) && digits_value(d) <= u32::MAX {
        Some(digits_value(d) as u32)
    } else {
        None
    }
}

proof fn lemma_digits_value_grows(d: Seq<char>, k: int)
    requires
        0 <= k <= d.len(),
        all_ascii_digits(d),
    ensures
        digits_value(d.take(k)) <= digits_value(d),
    decreases d.len() - k,
{
    if k < d.len() {
        lemma_digits_value_grows(d, k + 1);
        assert(d.take(k + 1).drop_last() =~= d.take(k));
        assert(is_ascii_digit(d[k]));
    } else {
        assert(d.take(k) =~= d);
    }
}

/// Parses a `u32` as `str::parse::<u32>` does.
pub fn parse_u32(s: &[char]) -> (r: Option<u32>)
    ensures
        r == parse_u32_spec(s@),
{
    let start: usize = if s.len() > 0 && s[0] == '+' { 1 } else { 0 };
    let ghost d = if s@.len() > 0 && s@[0] == '+' { s@.drop_first() } else { s@ };
    assert(d =~= s@.skip(start as int));
    if start >= s.len() {
        return None;
    }
    let mut acc: u64 = 0;
    let mut i = start;
    while i < s.len()
        invariant
            start <= i <= s@.len(),
            d == s@.skip(start as int),
            d == (if s@.len() > 0 && s@[0] == '+' { s@.drop_first() } else { s@ }),
            acc <= u32::MAX,
            acc == digits_value(d.take(i - start)),
            all_ascii_digits(d.take(i - start)),
        decreases s@.len() - i,
    {
        let c = s[i];
        let ghost pre = d.take(i - start);
        let ghost post = d.take(i - start + 1);
        assert(post.drop_last() =~= pre);
        assert(post.last() == c);
        if !('0' <= c && c <= '9') {
            assert(!all_ascii_digits(d)) by {
                assert(d[i - start] == s@[i as int]);
                if all_ascii_digits(d) {
                    assert(is_ascii_digit(d[i - start]));
                }
            }
            return None;
        }
        let v = acc * 10 + (c as u64 - '0' as u64);
        assert(all_ascii_digits(post)) by {
            assert forall|j: int| 0 <= j < post.len() implies #[trigger] is_ascii_digit(post[j]) by {
                if j < pre.len() {
                    assert(post[j] == pre[j]);
                }
            }
        }
        if v > 0xffff_ffff {
            proof {
                if all_ascii_digits(d) {
                    lemma_digits_value_grows(d, i - start + 1);
                }
            }
            return None;
        }
        acc = v;
        i = i + 1;
    }
    assert(d.take(i - start) =~= d);
    Some(acc as u32)
}

/// The first `c` from `from` is at `q` when `q` holds `c` and nothing before it does.
pub proof fn lemma_first_index_at(t: Seq<char>, c: char, from: int, q: int)
    requires
        0 <= from <= q < t.len(),
        t[q] == c,
        forall|j: int| from <= j < q ==> t[j] != c,
    ensures
        first_index_of(t, c, from) == Some(q),
    decreases q - from,
{
    if from < q {
        lemma_first_index_at(t, c, from + 1, q);
    }
}

/// Positions where the key does not occur can be skipped by the quoted-value search.
pub proof fn lemma_first_quoted_skip(t: Seq<char>, key: Seq<char>, from: int, to: int)
    requires
        0 <= from <= to <= t.len(),
        forall|i: int| from <= i < to ==> !occurs_at(t, key, i),
    ensures
        first_quoted(t, key, from) == first_quoted(t, key, to),
    decreases to - from,
{
    if from < to {
        lemma_first_quoted_skip(t, key, from + 1, to);
    }
}

/// Positions where the key does not occur can be skipped by the digit search.
pub proof fn lemma_first_digits_skip(t: Seq<char>, key: Seq<char>, from: int, to: int)
    requires
        0 <= from <= to <= t.len(),
        forall|i: int| from <= i < to ==> !occurs_at(t, key, i),
    ensures
        first_digits(t, key, from) == first_digits(t, key, to),
    decreases to - from,
{
    if from < to {
        lemma_first_digits_skip(t, key, from + 1, to);
    }
}

/// A run of digits from `a` to `b` that stops at `b` ends at `b`.
pub proof fn lemma_digit_run_to(t: Seq<char>, a: int, b: int)
    requires
        0 <= a <= b <= t.len(),
        forall|k: int| a <= k < b ==> is_decimal_digit(#[trigger] t[k]),
        b == t.len() || !is_decimal_digit(t[b]),
    ensures
        digit_run_end(t, a) == b,
    decreases b - a,
{
    if a < b {
        lemma_digit_run_to(t, a + 1, b);
    }
}

/// The decimal rendering of `n` is ASCII digits worth `n`.
pub proof fn lemma_decimal_value(n: nat)
    ensures
        decimal(n).len() >= 1,
        forall|k: int| 0 <= k < decimal(n).len() ==> is_ascii_digit(#[trigger] decimal(n)[k]),
        digits_value(decimal(n)) == n,
    decreases n,
{
    let r = radix_digits(n, 10);
    if n < 10 {
        let c = digit_char(n);
        assert(c as nat == n + 48);
        assert(r == seq![c]);
        assert(r.drop_last() =~= Seq::<char>::empty());
        assert(digits_value(r) == digits_value(r.drop_last()) * 10 + (r.last() as nat - '0' as nat) as nat);
    } else {
        vstd::arithmetic::div_mod::lemma_div_decreases(n as int, 10);
        lemma_decimal_value(n / 10);
        let h = radix_digits(n / 10, 10);
        let c = digit_char(n % 10);
        assert(c as nat == n % 10 + 48);
        assert(r == h.push(c));
        assert(r.drop_last() =~= h);
        assert forall|k: int| 0 <= k < r.len() implies is_ascii_digit(#[trigger] r[k]) by {
            if k < h.len() {
                assert(r[k] == h[k]);
            }
        }
        assert(digits_value(r) == digits_value(h) * 10 + (r.last() as nat - '0' as nat) as nat);
        vstd::arithmetic::div_mod::lemma_fundamental_div_mod(n as int, 10);
        assert((n / 10) * 10 == 10 * (n / 10)) by (nonlinear_arith);
    }
}

/// Reading a number as `u32::from_str` does: the decimal rendering of any
/// `u32`, with or without a leading `+`, reads back as that number; text
/// holding a character other than a digit after the optional `+`, or no
/// digit at all, reads as nothing.
pub proof fn law_parse_u32(n: u32, t: Seq<char>, k: int)
    ensures
        parse_u32_spec(decimal(n as nat)) == Some(n),
        parse_u32_spec(seq!['+'] + decimal(n as nat)) == Some(n),
        parse_u32_spec(seq![]) is None,
        parse_u32_spec(seq!['+']) is None,
        (t.len() == 0 || t[0] != '+') && 0 <= k < t.len() && !is_ascii_digit(t[k]) ==> parse_u32_spec(t) is None,
{
    let d = decimal(n as nat);
    lemma_decimal_value(n as nat);
    assert(is_ascii_digit(d[0]));
    assert(all_ascii_digits(d));
    assert((seq!['+'] + d).drop_first() =~= d);
    assert(seq!['+'].drop_first() =~= Seq::<char>::empty());
}

} // verus!
