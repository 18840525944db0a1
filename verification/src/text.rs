//! Character-sequence helpers shared by the protocol parsers.
use vstd::prelude::*;
pub use vstd::utf8::{encode_utf8, decode_utf8, valid_utf8, is_ascii_chars, encode_scalar};

verus! {

/// The characters of a string slice, collected into a vector.
pub fn chars_of(s: &str) -> (v: Vec<char>)
    ensures
        v@ == s@,
{
    broadcast use vstd::string::axiom_spec_iter;
    let mut v: Vec<char> = Vec::new();
    for c in it: s.chars()
        invariant
            v@ == it.seq().take(it.index() as int),
    {
        v.push(c);
    }
    assert(v@ =~= s@);
    v
}

/// A `String` made of the given characters.
///
/// Trusted: calls `String::from_iter` on the characters; claims the string
/// holds exactly these characters in order.
#[verifier::external_body]
pub(crate) fn string_from_chars(v: &[char]) -> (s: String)
    ensures
        s@ == v@,
{
    String::from_iter(v)
}

} // verus!

verus! {

/// The digit character of a value below the radix (lower-case letters past 9).
pub open spec fn digit_char(d: nat) -> char {
    if d < 10 {
        ((d + '0' as nat) as u32) as char
    } else {
        ((d - 10 + 'a' as nat) as u32) as char
    }
}

/// The digits of `n` in the given radix, most significant first, without leading zeros.
pub open spec fn radix_digits(n: nat, radix: nat) -> Seq<char>
    recommends
        2 <= radix <= 36,
    decreases n,
{
    if radix < 2 || n < radix {
        seq![digit_char(n)]
    } else {
        proof {
            vstd::arithmetic::div_mod::lemma_div_decreases(n as int, radix as int);
        }
        radix_digits(n / radix, radix).push(digit_char(n % radix))
    }
}

/// Decimal rendering of a natural number (`format!("{}", n)`).
pub open spec fn decimal(n: nat) -> Seq<char> {
    radix_digits(n, 10)
}

/// Lower-case hexadecimal rendering of a natural number (`format!("{:x}", n)`).
pub open spec fn lower_hex(n: nat) -> Seq<char> {
    radix_digits(n, 16)
}

/// The text left-padded with `fill` to at least `width` characters.
pub open spec fn pad_left(s: Seq<char>, fill: char, width: nat) -> Seq<char> {
    if s.len() < width {
        Seq::new((width - s.len()) as nat, |i: int| fill) + s
    } else {
        s
    }
}

pub fn digit_char_exec(d: u64) -> (c: char)
    requires
        d < 36,
    ensures
        c == digit_char(d as nat),
{
    if d < 10 {
        ((d as u8) + 48u8) as char
    } else {
        ((d - 10) as u8 + 97u8) as char
    }
}

/// Appends the digits of `n` in `radix`.
pub fn push_radix_digits(n: u64, radix: u64, out: &mut Vec<char>)
    requires
        2 <= radix <= 36,
    ensures
        final(out)@ == old(out)@ + radix_digits(n as nat, radix as nat),
    decreases n,
{
    if n >= radix {
        proof {
            vstd::arithmetic::div_mod::lemma_div_decreases(n as int, radix as int);
        }
        push_radix_digits(n / radix, radix, out);
    }
    let d = n % radix;
    assert(d < 36);
    out.push(digit_char_exec(d));
    proof {
        if n < radix {
            vstd::arithmetic::div_mod::lemma_small_mod(n as nat, radix as nat);
        }
    }
}

/// Pushes `fill` until the vector holds at least `width` characters past `base`.
pub fn pad_digits_left(digits: &Vec<char>, fill: char, width: usize) -> (r: Vec<char>)
    ensures
        r@ == pad_left(digits@, fill, width as nat),
{
    let mut r: Vec<char> = Vec::new();
    if digits.len() < width {
        let n = width - digits.len();
        let mut k: usize = 0;
        while k < n
            invariant
                k <= n,
                r@ == Seq::new(k as nat, |i: int| fill),
            decreases n - k,
        {
            r.push(fill);
            k = k + 1;
        }
    }
    let mut k: usize = 0;
    let ghost start = r@;
    while k < digits.len()
        invariant
            k <= digits@.len(),
            r@ == start + digits@.take(k as int),
        decreases digits@.len() - k,
    {
        r.push(digits[k]);
        assert(digits@.take(k as int + 1) == digits@.take(k as int).push(digits@[k as int]));
        k = k + 1;
    }
    assert(digits@.take(digits@.len() as int) == digits@);
    r
}

/// Appends all of `src` to `dst`.
pub fn extend_chars(dst: &mut Vec<char>, src: &[char])
    ensures
        final(dst)@ == old(dst)@ + src@,
{
    let mut k: usize = 0;
    let ghost start = dst@;
    while k < src.len()
        invariant
            k <= src@.len(),
            dst@ == start + src@.take(k as int),
        decreases src@.len() - k,
    {
        dst.push(src[k]);
        assert(src@.take(k as int + 1) == src@.take(k as int).push(src@[k as int]));
        k = k + 1;
    }
    assert(src@.take(src@.len() as int) == src@);
}

} // verus!

verus! {

/// `p` occurs in `s` starting at index `i`.
pub open spec fn occurs_at(s: Seq<char>, p: Seq<char>, i: int) -> bool {
    0 <= i && i + p.len() <= s.len() && s.subrange(i, i + p.len()) == p
}

/// `s` contains `p` somewhere.
pub open spec fn contains_seq(s: Seq<char>, p: Seq<char>) -> bool {
    exists|i: int| occurs_at(s, p, i)
}

/// Replacement of every non-overlapping occurrence of `p`, scanned from the
/// left (the behaviour of `str::replace` for a non-empty pattern).
pub open spec fn replace_all(s: Seq<char>, p: Seq<char>, r: Seq<char>) -> Seq<char>
    decreases s.len(),
{
    if p.len() == 0 || s.len() < p.len() {
        s
    } else if s.take(p.len() as int) == p {
        r + replace_all(s.skip(p.len() as int), p, r)
    } else {
        seq![s[0]] + replace_all(s.drop_first(), p, r)
    }
}

/// The fields between non-overlapping occurrences of `p`, scanned from the
/// left (the behaviour of `str::split` for a non-empty pattern).
pub open spec fn split_all(s: Seq<char>, p: Seq<char>) -> Seq<Seq<char>>
    decreases s.len(),
{
    if p.len() == 0 || s.len() < p.len() {
        seq![s]
    } else if s.take(p.len() as int) == p {
        seq![Seq::<char>::empty()] + split_all(s.skip(p.len() as int), p)
    } else {
        let rest = split_all(s.drop_first(), p);
        rest.update(0, seq![s[0]] + rest[0])
    }
}

pub proof fn lemma_split_nonempty(s: Seq<char>, p: Seq<char>)
    ensures
        split_all(s, p).len() >= 1,
    decreases s.len(),
{
    if p.len() == 0 || s.len() < p.len() {
    } else if s.take(p.len() as int) == p {
    } else {
        lemma_split_nonempty(s.drop_first(), p);
    }
}

/// Element-wise equality of two character slices.
pub fn chars_eq(a: &[char], b: &[char]) -> (r: bool)
    ensures
        r == (a@ == b@),
{
    if a.len() != b.len() {
        return false;
    }
    let mut k: usize = 0;
    while k < a.len()
        invariant
            k <= a@.len(),
            a@.len() == b@.len(),
            forall|i: int| 0 <= i < k ==> a@[i] == b@[i],
        decreases a@.len() - k,
    {
        if a[k] != b[k] {
            return false;
        }
        k = k + 1;
    }
    assert(a@ =~= b@);
    true
}

/// Whether `p` occurs in `s` at index `i`.
pub fn occurs_at_exec(s: &[char], p: &[char], i: usize) -> (r: bool)
    ensures
        r == occurs_at(s@, p@, i as int),
{
    if i > s.len() || p.len() > s.len() - i {
        return false;
    }
    let mut k: usize = 0;
    while k < p.len()
        invariant
            k <= p@.len(),
            i + p@.len() <= s@.len(),
            s@.len() == s.len(),
            forall|j: int| 0 <= j < k ==> s@[i + j] == p@[j],
        decreases p@.len() - k,
    {
        if s[i + k] != p[k] {
            assert(s@.subrange(i as int, i + p@.len())[k as int] != p@[k as int]);
            return false;
        }
        k = k + 1;
    }
    assert(s@.subrange(i as int, i + p@.len()) =~= p@);
    true
}

pub proof fn lemma_occurs_take(s: Seq<char>, p: Seq<char>, i: int)
    requires
        0 <= i,
        i + p.len() <= s.len(),
    ensures
        occurs_at(s, p, i) == (s.skip(i).take(p.len() as int) == p),
{
    assert(s.skip(i).take(p.len() as int) =~= s.subrange(i, i + p.len()));
}

/// Whether `p` occurs anywhere in `s`.
pub fn contains_exec(s: &[char], p: &[char]) -> (r: bool)
    requires
        p@.len() > 0,
    ensures
        r == contains_seq(s@, p@),
{
    if p.len() > s.len() {
        return false;
    }
    let mut i: usize = 0;
    while i <= s.len() - p.len()
        invariant
            p@.len() <= s@.len(),
            p@.len() > 0,
            i <= s@.len() - p@.len() + 1,
            forall|j: int| 0 <= j < i ==> !occurs_at(s@, p@, j),
        decreases s@.len() - p@.len() + 1 - i,
    {
        if occurs_at_exec(s, p, i) {
            return true;
        }
        i = i + 1;
    }
    true && false
}

/// Every occurrence of `p` in `s` replaced by `r`.
pub fn replace_all_exec(s: &[char], p: &[char], r: &[char]) -> (out: Vec<char>)
    requires
        p@.len() > 0,
    ensures
        out@ == replace_all(s@, p@, r@),
{
    let mut out: Vec<char> = Vec::new();
    let mut i: usize = 0;
    proof {
        assert(s@.skip(0) =~= s@);
        assert(out@ + s@ =~= s@);
    }
    while i < s.len()
        invariant
            p@.len() > 0,
            i <= s@.len(),
            out@ + replace_all(s@.skip(i as int), p@, r@) == replace_all(s@, p@, r@),
        decreases s@.len() - i,
    {
        let ghost rest = s@.skip(i as int);
        if occurs_at_exec(s, p, i) {
            proof {
                lemma_occurs_take(s@, p@, i as int);
                assert(rest.skip(p@.len() as int) =~= s@.skip(i + p@.len()));
            }
            let ghost before = out@;
            extend_chars(&mut out, r);
            assert(out@ + replace_all(s@.skip(i + p@.len()), p@, r@) =~= before + replace_all(
                rest,
                p@,
                r@,
            ));
            i = i + p.len();
        } else {
            proof {
                if i + p@.len() <= s@.len() {
                    lemma_occurs_take(s@, p@, i as int);
                }
                assert(rest.drop_first() =~= s@.skip(i + 1));
                if rest.len() < p@.len() {
                    assert(replace_all(rest, p@, r@) == rest);
                    assert(replace_all(rest.drop_first(), p@, r@) == rest.drop_first());
                    assert(rest =~= seq![rest[0]] + rest.drop_first());
                }
            }
            let ghost before = out@;
            out.push(s[i]);
            assert(out@ + replace_all(s@.skip(i + 1), p@, r@) =~= before + replace_all(rest, p@, r@));
            i = i + 1;
        }
    }
    proof {
        assert(s@.skip(i as int) =~= seq![]);
        assert(out@ + seq![] =~= out@);
    }
    out
}

/// The fields of `s` between occurrences of `p`.
pub fn split_exec(s: &[char], p: &[char]) -> (parts: Vec<Vec<char>>)
    requires
        p@.len() > 0,
    ensures
        parts@.map_values(|v: Vec<char>| v@) == split_all(s@, p@),
{
    let mut done: Vec<Vec<char>> = Vec::new();
    let mut cur: Vec<char> = Vec::new();
    let mut i: usize = 0;
    proof {
        lemma_split_nonempty(s@, p@);
        assert(s@.skip(0) =~= s@);
        let a = split_all(s@, p@);
        assert(seq![cur@ + a[0]] + a.drop_first() =~= a);
    }
    while i < s.len()
        invariant
            p@.len() > 0,
            i <= s@.len(),
            split_all(s@.skip(i as int), p@).len() >= 1,
            ({
                let rr = split_all(s@.skip(i as int), p@);
                done@.map_values(|v: Vec<char>| v@) + seq![cur@ + rr[0]] + rr.drop_first()
                    == split_all(s@, p@)
            }),
        decreases s@.len() - i,
    {
        let ghost rest = s@.skip(i as int);
        let ghost rr = split_all(rest, p@);
        if occurs_at_exec(s, p, i) {
            proof {
                lemma_occurs_take(s@, p@, i as int);
                assert(rest.skip(p@.len() as int) =~= s@.skip(i + p@.len()));
                lemma_split_nonempty(s@.skip(i + p@.len()), p@);
            }
            let ghost dv = done@.map_values(|v: Vec<char>| v@);
            let ghost cv = cur@;
            let finished = cur;
            done.push(finished);
            cur = Vec::new();
            proof {
                let r2 = split_all(s@.skip(i + p@.len()), p@);
                assert(rr == seq![Seq::<char>::empty()] + r2);
                assert(done@.map_values(|v: Vec<char>| v@) =~= dv.push(cv));
                assert(dv + seq![cv + rr[0]] + rr.drop_first() =~= dv.push(cv) + seq![cur@ + r2[0]]
                    + r2.drop_first());
            }
            i = i + p.len();
        } else {
            proof {
                if i + p@.len() <= s@.len() {
                    lemma_occurs_take(s@, p@, i as int);
                }
                assert(rest.drop_first() =~= s@.skip(i + 1));
                lemma_split_nonempty(s@.skip(i + 1), p@);
            }
            let ghost cv = cur@;
            cur.push(s[i]);
            proof {
                let r2 = split_all(s@.skip(i + 1), p@);
                if rest.len() < p@.len() {
                    assert(rr == seq![rest]);
                    assert(r2 == seq![rest.drop_first()]);
                    assert(rest =~= seq![rest[0]] + rest.drop_first());
                    assert(cv + rr[0] =~= cur@ + r2[0]);
                    assert(rr.drop_first() =~= r2.drop_first());
                } else {
                    assert(rr == r2.update(0, seq![rest[0]] + r2[0]));
                    assert(cv + rr[0] =~= cur@ + r2[0]);
                    assert(rr.drop_first() =~= r2.drop_first());
                }
            }
            i = i + 1;
        }
    }
    proof {
        let e = s@.skip(i as int);
        assert(e =~= Seq::<char>::empty());
        assert(split_all(e, p@) == seq![e]);
    }
    let ghost dv = done@.map_values(|v: Vec<char>| v@);
    done.push(cur);
    proof {
        let e = s@.skip(i as int);
        assert(done@.map_values(|v: Vec<char>| v@) =~= dv + seq![cur@ + e] + seq![Seq::<char>::empty()].drop_first());
    }
    done
}

/// The text `str::from_utf8_lossy` makes of some bytes.
pub uninterp spec fn lossy_utf8(bytes: Seq<u8>) -> Seq<char>;

/// Decodes bytes as UTF-8, replacing invalid sequences with U+FFFD.
///
/// Trusted: calls `String::from_utf8_lossy`. Its result is named by
/// `lossy_utf8`; the one fact stated is the documented one that valid UTF-8
/// comes back unchanged. What replacement is made of invalid input is left unsaid.
#[verifier::external_body]
pub(crate) fn from_utf8_lossy(bytes: &[u8]) -> (s: String)
    ensures
        s@ == lossy_utf8(bytes@),
        valid_utf8(bytes@) ==> s@ == decode_utf8(bytes@),
{
    String::from_utf8_lossy(bytes).into_owned()
}

/// The text `str::to_uppercase` makes of some characters.
pub uninterp spec fn unicode_upper(s: Seq<char>) -> Seq<char>;

pub open spec fn ascii_upper_char(c: char) -> char {
    if 'a' <= c && c <= 'z' {
        ((c as u32) - 32) as char
    } else {
        c
    }
}

/// Upper-cases a string.
///
/// Trusted: calls `str::to_uppercase`. Its result is named by
/// `unicode_upper`; the fact stated is that ASCII text maps letter by letter
/// to ASCII upper case. The Unicode case mapping of other characters is left unsaid.
#[verifier::external_body]
pub(crate) fn to_uppercase(s: &str) -> (r: String)
    ensures
        r@ == unicode_upper(s@),
        is_ascii_chars(s@) ==> r@ == s@.map_values(|c: char| ascii_upper_char(c)),
{
    s.to_uppercase()
}

} // verus!

verus! {

/// Decimal rendering of a number.
pub fn decimal_string(n: u64) -> (s: String)
    ensures
        s@ == decimal(n as nat),
{
    let mut digits: Vec<char> = Vec::new();
    push_radix_digits(n, 10, &mut digits);
    string_from_chars(digits.as_slice())
}

/// `a` followed by `b`, as a new string.
pub fn concat_str(a: &str, b: &str) -> (s: String)
    ensures
        s@ == a@ + b@,
{
    let mut s = String::from_str(a);
    s.append(b);
    s
}

} // verus!
