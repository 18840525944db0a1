//! Line splitting and whitespace trimming, as `str::lines`, `str::trim`,
//! `str::trim_end` and `str::ends_with` behave.
use vstd::prelude::*;
use crate::chars::{is_whitespace, is_whitespace_exec};
use crate::scan::{first_index_of, lemma_first_index_of, find_char_from, copy_chars};

verus! {

/// `s` without its trailing whitespace.
pub open spec fn trim_end(s: Seq<char>) -> Seq<char>
    decreases s.len(),
{
    if s.len() > 0 && is_whitespace(s.last()) {
        trim_end(s.drop_last())
    } else {
        s
    }
}

/// `s` without its leading whitespace.
pub open spec fn trim_start(s: Seq<char>) -> Seq<char>
    decreases s.len(),
{
    if s.len() > 0 && is_whitespace(s[0]) {
        trim_start(s.drop_first())
    } else {
        s
    }
}

/// `s` without leading and trailing whitespace.
pub open spec fn trim(s: Seq<char>) -> Seq<char> {
    trim_end(trim_start(s))
}

/// A line without the `\r` of a `\r\n` ending.
pub open spec fn strip_cr(l: Seq<char>) -> Seq<char> {
    if l.len() > 0 && l.last() == '\r' {
        l.drop_last()
    } else {
        l
    }
}

/// The lines of `s`: split at `\n`, a `\r` before the `\n` removed, and no
/// empty line after a final `\n`.
pub open spec fn lines_of(s: Seq<char>) -> Seq<Seq<char>>
    decreases s.len(),
{
    if s.len() == 0 {
        seq![]
    } else {
        match first_index_of(s, '\n', 0) {
            Some(i) => if 0 <= i < s.len() {
                seq![strip_cr(s.take(i))] + lines_of(s.skip(i + 1))
            } else {
                seq![]
            },
            None => seq![s],
        }
    }
}

/// `s` ends with `suffix`.
pub open spec fn ends_with(s: Seq<char>, suffix: Seq<char>) -> bool {
    suffix.len() <= s.len() && s.skip(s.len() - suffix.len()) == suffix
}

/// `s` starts with `prefix`.
pub open spec fn starts_with(s: Seq<char>, prefix: Seq<char>) -> bool {
    prefix.len() <= s.len() && s.take(prefix.len() as int) == prefix
}

proof fn lemma_trim_end_take(s: Seq<char>, j: int)
    requires
        0 < j <= s.len(),
        is_whitespace(s[j - 1]),
    ensures
        trim_end(s.take(j)) == trim_end(s.take(j - 1)),
{
    assert(s.take(j).drop_last() =~= s.take(j - 1));
}

/// `s` without its trailing whitespace.
pub fn trim_end_chars(s: &[char]) -> (r: Vec<char>)
    ensures
        r@ == trim_end(s@),
{
    let mut j = s.len();
    assert(s@.take(j as int) =~= s@);
    while j > 0 && is_whitespace_exec(s[j - 1])
        invariant
            j <= s@.len(),
            trim_end(s@) == trim_end(s@.take(j as int)),
        decreases j,
    {
        proof {
            lemma_trim_end_take(s@, j as int);
        }
        j = j - 1;
    }
    proof {
        if j > 0 {
            assert(s@.take(j as int).last() == s@[j - 1]);
        }
    }
    copy_chars(s, 0, j)
}

proof fn lemma_trim_start_skip(s: Seq<char>, i: int)
    requires
        0 <= i < s.len(),
        is_whitespace(s[i]),
    ensures
        trim_start(s.skip(i)) == trim_start(s.skip(i + 1)),
{
    assert(s.skip(i).drop_first() =~= s.skip(i + 1));
}

/// `s` without leading and trailing whitespace.
pub fn trim_chars(s: &[char]) -> (r: Vec<char>)
    ensures
        r@ == trim(s@),
{
    let mut i: usize = 0;
    assert(s@.skip(0) =~= s@);
    while i < s.len() && is_whitespace_exec(s[i])
        invariant
            i <= s@.len(),
            trim_start(s@) == trim_start(s@.skip(i as int)),
        decreases s@.len() - i,
    {
        proof {
            lemma_trim_start_skip(s@, i as int);
        }
        i = i + 1;
    }
    proof {
        if i < s@.len() {
            assert(s@.skip(i as int)[0] == s@[i as int]);
        }
    }
    let rest = copy_chars(s, i, s.len());
    assert(rest@ =~= s@.skip(i as int));
    trim_end_chars(rest.as_slice())
}

/// Whether `s` ends with `suffix`.
pub fn ends_with_chars(s: &[char], suffix: &[char]) -> (r: bool)
    ensures
        r == ends_with(s@, suffix@),
{
    if suffix.len() > s.len() {
        return false;
    }
    let off = s.len() - suffix.len();
    let mut k: usize = 0;
    while k < suffix.len()
        invariant
            off + suffix@.len() == s@.len(),
            off + suffix.len() == s.len(),
            k <= suffix@.len(),
            forall|j: int| 0 <= j < k ==> s@[off + j] == suffix@[j],
        decreases suffix@.len() - k,
    {
        if s[off + k] != suffix[k] {
            assert(s@.skip(off as int)[k as int] != suffix@[k as int]);
            return false;
        }
        k = k + 1;
    }
    assert(s@.skip(off as int) =~= suffix@);
    true
}

/// Whether `s` starts with `prefix`.
pub fn starts_with_chars(s: &[char], prefix: &[char]) -> (r: bool)
    ensures
        r == starts_with(s@, prefix@),
{
    if prefix.len() > s.len() {
        return false;
    }
    let mut k: usize = 0;
    while k < prefix.len()
        invariant
            prefix@.len() <= s@.len(),
            k <= prefix@.len(),
            forall|j: int| 0 <= j < k ==> s@[j] == prefix@[j],
        decreases prefix@.len() - k,
    {
        if s[k] != prefix[k] {
            assert(s@.take(prefix@.len() as int)[k as int] != prefix@[k as int]);
            return false;
        }
        k = k + 1;
    }
    assert(s@.take(prefix@.len() as int) =~= prefix@);
    true
}

pub proof fn lemma_first_index_skip(s: Seq<char>, c: char, pos: int, from: int)
    requires
        0 <= pos <= s.len(),
        0 <= from,
    ensures
        first_index_of(s.skip(pos), c, from) == (match first_index_of(s, c, pos + from) {
            Some(q) => Some(q - pos),
            None => None,
        }),
    decreases s.len() - pos - from,
{
    if pos + from < s.len() {
        assert(s.skip(pos)[from] == s[pos + from]);
        lemma_first_index_skip(s, c, pos, from + 1);
    }
}

/// The view of each line in a list of lines.
pub open spec fn char_lines(v: Seq<Vec<char>>) -> Seq<Seq<char>> {
    v.map_values(|l: Vec<char>| l@)
}

/// `l` without the `\r` of a `\r\n` ending.
fn strip_cr_exec(l: Vec<char>) -> (r: Vec<char>)
    ensures
        r@ == strip_cr(l@),
{
    let mut l = l;
    if l.len() > 0 && l[l.len() - 1] == '\r' {
        l.pop();
    }
    l
}

/// The lines of `s`, as `str::lines` gives them.
pub fn lines_chars(s: &[char]) -> (r: Vec<Vec<char>>)
    ensures
        char_lines(r@) == lines_of(s@),
{
    let mut done: Vec<Vec<char>> = Vec::new();
    let mut pos: usize = 0;
    assert(s@.skip(0) =~= s@);
    while pos < s.len()
        invariant
            pos <= s@.len(),
            char_lines(done@) + lines_of(s@.skip(pos as int)) == lines_of(s@),
        decreases s@.len() - pos,
    {
        let ghost rest = s@.skip(pos as int);
        proof {
            lemma_first_index_skip(s@, '\n', pos as int, 0);
            lemma_first_index_of(s@, '\n', pos as int);
        }
        let ghost before = char_lines(done@);
        match find_char_from(s, '\n', pos) {
            Some(q) => {
                let line = copy_chars(s, pos, q);
                let line = strip_cr_exec(line);
                done.push(line);
                proof {
                    assert(rest.take(q - pos) =~= s@.subrange(pos as int, q as int));
                    assert(rest.skip(q - pos + 1) =~= s@.skip(q + 1));
                    assert(char_lines(done@) =~= before.push(line@));
                    assert(lines_of(rest) == seq![line@] + lines_of(s@.skip(q + 1)));
                    assert(char_lines(done@) + lines_of(s@.skip(q + 1)) =~= before + lines_of(rest));
                }
                pos = q + 1;
            },
            None => {
                let line = copy_chars(s, pos, s.len());
                done.push(line);
                proof {
                    assert(line@ =~= rest);
                    assert(char_lines(done@) =~= before.push(line@));
                    assert(lines_of(rest) == seq![rest]);
                    assert(s@.skip(s@.len() as int) =~= seq![]);
                    assert(char_lines(done@) + lines_of(s@.skip(s@.len() as int)) =~= before + lines_of(rest));
                }
                pos = s.len();
            },
        }
    }
    proof {
        assert(s@.skip(pos as int) =~= seq![]);
        assert(char_lines(done@) + seq![] =~= char_lines(done@));
    }
    done
}

proof fn lemma_trim_start_at(s: Seq<char>) -> (i: int)
    ensures
        0 <= i <= s.len(),
        trim_start(s) == s.skip(i),
        forall|k: int| 0 <= k < i ==> is_whitespace(#[trigger] s[k]),
        i < s.len() ==> !is_whitespace(s[i]),
    decreases s.len(),
{
    if s.len() > 0 && is_whitespace(s[0]) {
        let r = s.drop_first();
        let i0 = lemma_trim_start_at(r);
        assert(r.skip(i0) =~= s.skip(i0 + 1));
        assert forall|k: int| 0 <= k < i0 + 1 implies is_whitespace(#[trigger] s[k]) by {
            if k > 0 {
                assert(s[k] == r[k - 1]);
            }
        }
        i0 + 1
    } else {
        assert(s.skip(0) =~= s);
        0
    }
}

proof fn lemma_trim_end_at(s: Seq<char>) -> (j: int)
    ensures
        0 <= j <= s.len(),
        trim_end(s) == s.take(j),
        forall|k: int| j <= k < s.len() ==> is_whitespace(#[trigger] s[k]),
        j > 0 ==> !is_whitespace(s[j - 1]),
    decreases s.len(),
{
    if s.len() > 0 && is_whitespace(s.last()) {
        let r = s.drop_last();
        let j0 = lemma_trim_end_at(r);
        assert(r.take(j0) =~= s.take(j0));
        assert forall|k: int| j0 <= k < s.len() implies is_whitespace(#[trigger] s[k]) by {
            if k < r.len() {
                assert(s[k] == r[k]);
            }
        }
        j0
    } else {
        assert(s.take(s.len() as int) =~= s);
        s.len() as int
    }
}

/// Trimming cuts whitespace from both ends and nothing else: the result is
/// a stretch of the text, everything before and after it is whitespace, and
/// it neither starts nor ends with whitespace.
pub proof fn law_trim_cuts_whitespace(s: Seq<char>)
    ensures
        exists|i: int, j: int|
            {
                &&& 0 <= i <= j <= s.len()
                &&& trim(s) == s.subrange(i, j)
                &&& forall|k: int| 0 <= k < i ==> is_whitespace(#[trigger] s[k])
                &&& forall|k: int| j <= k < s.len() ==> is_whitespace(#[trigger] s[k])
                &&& i < j ==> !is_whitespace(s[i]) && !is_whitespace(s[j - 1])
            },
{
    let i = lemma_trim_start_at(s);
    let t = s.skip(i);
    let j0 = lemma_trim_end_at(t);
    assert(t.take(j0) =~= s.subrange(i, i + j0));
    assert forall|k: int| i + j0 <= k < s.len() implies is_whitespace(#[trigger] s[k]) by {
        assert(s[k] == t[k - i]);
    }
    if j0 > 0 {
        assert(s[i] == t[0]);
        assert(s[i + j0 - 1] == t[j0 - 1]);
        if j0 == t.len() {
        }
    } else if i < s.len() {
        assert(t[0] == s[i]);
    }
    assert(0 <= i <= i + j0 <= s.len());
}

/// Lines are split at each `\n`, a `\r` just before it is dropped, and a
/// last line without `\n` is kept whole: for a line `a` holding no `\n`,
/// `a\nb` gives `a` (without a final `\r`) then the lines of `b`; `a`
/// alone gives just `a`.
pub proof fn law_lines_split(a: Seq<char>, b: Seq<char>)
    requires
        forall|k: int| 0 <= k < a.len() ==> a[k] != '\n',
    ensures
        lines_of(a + seq!['\n'] + b) == seq![strip_cr(a)] + lines_of(b),
        a.len() > 0 ==> lines_of(a) == seq![a],
        strip_cr(a + seq!['\r']) == a,
        (a.len() == 0 || a[a.len() - 1] != '\r') ==> strip_cr(a) == a,
{
    let s = a + seq!['\n'] + b;
    let n = a.len() as int;
    assert(s[n] == '\n');
    assert forall|j: int| 0 <= j < n implies s[j] != '\n' by {
        assert(s[j] == a[j]);
    }
    crate::scan::lemma_first_index_at(s, '\n', 0, n);
    assert(s.take(n) =~= a);
    assert(s.skip(n + 1) =~= b);
    if a.len() > 0 {
        lemma_first_index_of(a, '\n', 0);
    }
    assert((a + seq!['\r']).drop_last() =~= a);
}

} // verus!
