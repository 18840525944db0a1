//! The facts the service publishes about the device: the Wi-Fi network it
//! is on, its IPv4 addresses, the user to log in as and its model name.
use vstd::prelude::*;
use crate::text::{
    occurs_at, occurs_at_exec, split_all, split_exec, decimal, push_radix_digits, extend_chars,
    chars_of, string_from_chars, from_utf8_lossy, lossy_utf8,
};
use crate::chars::is_ascii_digit;
use crate::scan::{
    first_quoted, find_quoted, digit_run_end, lemma_digit_run_end, digit_run_end_exec, copy_chars,
    digits_value, all_ascii_digits, parse_u32_spec, parse_u32,
};
use crate::lines::{lines_of, char_lines, lines_chars, ends_with, ends_with_chars, trim, trim_chars};
use crate::wifi::join;

verus! {

/// `ESSID:"`
pub open spec fn essid_key() -> Seq<char> {
    seq!['E', 'S', 'S', 'I', 'D', ':', '"']
}

/// What is published when no network name is known.
pub const NOT_AVAILABLE: &'static str = "Not available";

/// The network name in the output of `iwconfig wlan0`: the capture of
/// `ESSID:"([^"]*)"`, or `Not available`.
pub open spec fn wifi_name_of(out: Seq<char>) -> Seq<char> {
    match first_quoted(out, essid_key(), 0) {
        Some(x) => x,
        None => NOT_AVAILABLE@,
    }
}

/// The network name from the standard output of `iwconfig wlan0`.
pub fn wifi_name_from(iwconfig_stdout: &[u8]) -> (r: String)
    ensures
        r@ == wifi_name_of(lossy_utf8(iwconfig_stdout@)),
{
    let text = from_utf8_lossy(iwconfig_stdout);
    let s = chars_of(text.as_str());
    let key = vec!['E', 'S', 'S', 'I', 'D', ':', '"'];
    assert(key@ =~= essid_key());
    match find_quoted(s.as_slice(), key.as_slice()) {
        Some(v) => string_from_chars(v.as_slice()),
        None => String::from_str(NOT_AVAILABLE),
    }
}

/// `inet `
pub open spec fn inet_key() -> Seq<char> {
    seq!['i', 'n', 'e', 't', ' ']
}

/// End of four digit runs separated by dots (`\d+\.\d+\.\d+\.\d+`) starting at `p`.
pub open spec fn quad_end(s: Seq<char>, p: int) -> Option<int> {
    let e1 = digit_run_end(s, p);
    if p < e1 < s.len() && s[e1] == '.' {
        let e2 = digit_run_end(s, e1 + 1);
        if e1 + 1 < e2 < s.len() && s[e2] == '.' {
            let e3 = digit_run_end(s, e2 + 1);
            if e2 + 1 < e3 < s.len() && s[e3] == '.' {
                let e4 = digit_run_end(s, e3 + 1);
                if e3 + 1 < e4 {
                    Some(e4)
                } else {
                    None
                }
            } else {
                None
            }
        } else {
            None
        }
    } else {
        None
    }
}

/// End of a match of `inet (\d+\.\d+\.\d+\.\d+)` starting at `p`.
pub open spec fn inet_match_end(s: Seq<char>, p: int) -> Option<int> {
    if occurs_at(s, inet_key(), p) {
        quad_end(s, p + 5)
    } else {
        None
    }
}

/// The captured addresses of the matches from `pos` on, left to right.
pub open spec fn inet_captures_from(s: Seq<char>, pos: int) -> Seq<Seq<char>>
    decreases s.len() - pos,
{
    if pos < 0 || pos >= s.len() {
        seq![]
    } else {
        match inet_match_end(s, pos) {
            Some(e) => if pos < e <= s.len() {
                seq![s.subrange(pos + 5, e)] + inet_captures_from(s, e)
            } else {
                seq![]
            },
            None => inet_captures_from(s, pos + 1),
        }
    }
}

/// One octet of a dotted-decimal IPv4 address: one to three ASCII digits,
/// no leading zero, at most 255.
pub open spec fn octet_value(d: Seq<char>) -> Option<u8> {
    if 1 <= d.len() <= 3 && all_ascii_digits(d) && (d.len() == 1 || d[0] != '0') && digits_value(d)
        <= 255 {
        Some(digits_value(d) as u8)
    } else {
        None
    }
}

/// The four octets of a dotted-decimal IPv4 address, as
/// `str::parse::<Ipv4Addr>` reads it.
pub open spec fn ipv4_octets(c: Seq<char>) -> Option<(u8, u8, u8, u8)> {
    let parts = split_all(c, seq!['.']);
    if parts.len() == 4 && octet_value(parts[0]) is Some && octet_value(parts[1]) is Some
        && octet_value(parts[2]) is Some && octet_value(parts[3]) is Some {
        Some(
            (
                octet_value(parts[0])->0,
                octet_value(parts[1])->0,
                octet_value(parts[2])->0,
                octet_value(parts[3])->0,
            ),
        )
    } else {
        None
    }
}

/// Dotted-decimal rendering of an address.
pub open spec fn ipv4_text(o: (u8, u8, u8, u8)) -> Seq<char> {
    decimal(o.0 as nat) + seq!['.'] + decimal(o.1 as nat) + seq!['.'] + decimal(o.2 as nat) + seq!['.']
        + decimal(o.3 as nat)
}

/// The addresses that parse and are not loopback (`127.x.x.x`), rendered.
pub open spec fn listed_ips(caps: Seq<Seq<char>>) -> Seq<Seq<char>>
    decreases caps.len(),
{
    if caps.len() == 0 {
        seq![]
    } else {
        let r = listed_ips(caps.drop_last());
        match ipv4_octets(caps.last()) {
            Some(o) => if o.0 != 127 {
                r.push(ipv4_text(o))
            } else {
                r
            },
            None => r,
        }
    }
}

/// The published address list for the output of `ip -4 -o addr show`:
/// the addresses joined with `, `, or `--` when there is none.
pub open spec fn ip_list_text(out: Seq<char>) -> Seq<char> {
    let ips = listed_ips(inet_captures_from(out, 0));
    if ips.len() == 0 {
        seq!['-', '-']
    } else {
        join(ips, seq![',', ' '])
    }
}

fn quad_end_exec(s: &[char], p: usize) -> (r: Option<usize>)
    requires
        p <= s@.len(),
    ensures
        r matches Some(e) ==> quad_end(s@, p as int) == Some(e as int) && e <= s@.len(),
        r is None ==> quad_end(s@, p as int) is None,
{
    proof {
        lemma_digit_run_end(s@, p as int);
    }
    let e1 = digit_run_end_exec(s, p);
    if !(p < e1 && e1 < s.len() && s[e1] == '.') {
        return None;
    }
    proof {
        lemma_digit_run_end(s@, e1 + 1);
    }
    let e2 = digit_run_end_exec(s, e1 + 1);
    if !(e1 + 1 < e2 && e2 < s.len() && s[e2] == '.') {
        return None;
    }
    proof {
        lemma_digit_run_end(s@, e2 + 1);
    }
    let e3 = digit_run_end_exec(s, e2 + 1);
    if !(e2 + 1 < e3 && e3 < s.len() && s[e3] == '.') {
        return None;
    }
    proof {
        lemma_digit_run_end(s@, e3 + 1);
    }
    let e4 = digit_run_end_exec(s, e3 + 1);
    if e3 + 1 < e4 {
        Some(e4)
    } else {
        None
    }
}

/// The captured addresses of `inet (\d+\.\d+\.\d+\.\d+)`, left to right.
fn inet_captures(s: &[char]) -> (r: Vec<Vec<char>>)
    ensures
        char_lines(r@) == inet_captures_from(s@, 0),
{
    let key = vec!['i', 'n', 'e', 't', ' '];
    assert(key@ =~= inet_key());
    let mut done: Vec<Vec<char>> = Vec::new();
    let mut pos: usize = 0;
    while pos < s.len()
        invariant
            key@ == inet_key(),
            pos <= s@.len(),
            char_lines(done@) + inet_captures_from(s@, pos as int) == inet_captures_from(s@, 0),
        decreases s@.len() - pos,
    {
        let ghost before = char_lines(done@);
        let mut end: Option<usize> = None;
        if occurs_at_exec(s, key.as_slice(), pos) {
            assert(inet_key().len() == 5);
            end = quad_end_exec(s, pos + 5);
        }
        match end {
            Some(e) => {
                let c = copy_chars(s, pos + 5, e);
                done.push(c);
                assert(char_lines(done@) =~= before.push(c@));
                assert(char_lines(done@) + inet_captures_from(s@, e as int) =~= before + inet_captures_from(
                    s@,
                    pos as int,
                ));
                pos = e;
            },
            None => {
                pos = pos + 1;
            },
        }
    }
    assert(char_lines(done@) + seq![] =~= char_lines(done@));
    done
}

/// One octet, as the IPv4 parser reads it.
fn octet_exec(d: &[char]) -> (r: Option<u8>)
    ensures
        r == octet_value(d@),
{
    if d.len() < 1 || d.len() > 3 {
        return None;
    }
    if d.len() > 1 && d[0] == '0' {
        return None;
    }
    let mut acc: u32 = 0;
    let mut i: usize = 0;
    assert(d@.take(0) =~= seq![]);
    while i < d.len()
        invariant
            1 <= d@.len() <= 3,
            i <= d@.len(),
            acc == digits_value(d@.take(i as int)),
            i == 0 ==> acc == 0,
            i == 1 ==> acc < 10,
            i == 2 ==> acc < 100,
            i == 3 ==> acc < 1000,
            all_ascii_digits(d@.take(i as int)),
        decreases d@.len() - i,
    {
        let c = d[i];
        let ghost pre = d@.take(i as int);
        let ghost post = d@.take(i + 1);
        assert(post.drop_last() =~= pre);
        assert(post.last() == c);
        if !('0' <= c && c <= '9') {
            assert(!all_ascii_digits(d@)) by {
                if all_ascii_digits(d@) {
                    assert(is_ascii_digit(d@[i as int]));
                }
            }
            return None;
        }
        assert(all_ascii_digits(post)) by {
            assert forall|j: int| 0 <= j < post.len() implies #[trigger] is_ascii_digit(post[j]) by {
                if j < pre.len() {
                    assert(post[j] == pre[j]);
                }
            }
        }
        acc = acc * 10 + (c as u32 - 48);
        i = i + 1;
    }
    assert(d@.take(i as int) =~= d@);
    if acc <= 255 {
        Some(acc as u8)
    } else {
        None
    }
}

/// The octets of a dotted-decimal address.
fn ipv4_exec(c: &[char]) -> (r: Option<(u8, u8, u8, u8)>)
    ensures
        r == ipv4_octets(c@),
{
    let dot = vec!['.'];
    assert(dot@ =~= seq!['.']);
    let parts = split_exec(c, dot.as_slice());
    assert(parts@.len() == split_all(c@, seq!['.']).len());
    if parts.len() != 4 {
        return None;
    }
    assert(parts@[0]@ == split_all(c@, seq!['.'])[0]);
    assert(parts@[1]@ == split_all(c@, seq!['.'])[1]);
    assert(parts@[2]@ == split_all(c@, seq!['.'])[2]);
    assert(parts@[3]@ == split_all(c@, seq!['.'])[3]);
    let a = octet_exec(parts[0].as_slice());
    let b = octet_exec(parts[1].as_slice());
    let x = octet_exec(parts[2].as_slice());
    let y = octet_exec(parts[3].as_slice());
    match (a, b, x, y) {
        (Some(a), Some(b), Some(x), Some(y)) => Some((a, b, x, y)),
        _ => None,
    }
}

fn ipv4_text_exec(o: (u8, u8, u8, u8)) -> (r: Vec<char>)
    ensures
        r@ == ipv4_text(o),
{
    let mut r: Vec<char> = Vec::new();
    push_radix_digits(o.0 as u64, 10, &mut r);
    r.push('.');
    push_radix_digits(o.1 as u64, 10, &mut r);
    r.push('.');
    push_radix_digits(o.2 as u64, 10, &mut r);
    r.push('.');
    push_radix_digits(o.3 as u64, 10, &mut r);
    assert(r@ =~= ipv4_text(o));
    r
}

/// The published address list from the standard output of `ip -4 -o addr show`.
pub fn ip_addresses_text(ip_stdout: &[u8]) -> (r: String)
    ensures
        r@ == ip_list_text(lossy_utf8(ip_stdout@)),
{
    let text = from_utf8_lossy(ip_stdout);
    let s = chars_of(text.as_str());
    let caps = inet_captures(s.as_slice());
    let ghost cs = char_lines(caps@);
    let mut ips: Vec<Vec<char>> = Vec::new();
    let mut i: usize = 0;
    assert(cs.take(0) =~= seq![]);
    while i < caps.len()
        invariant
            i <= caps@.len(),
            cs == char_lines(caps@),
            char_lines(ips@) == listed_ips(cs.take(i as int)),
        decreases caps@.len() - i,
    {
        assert(cs.take(i + 1).drop_last() =~= cs.take(i as int));
        assert(cs.take(i + 1).last() == caps@[i as int]@);
        let ghost before = char_lines(ips@);
        match ipv4_exec(caps[i].as_slice()) {
            Some(o) => {
                if o.0 != 127 {
                    let t = ipv4_text_exec(o);
                    ips.push(t);
                    assert(char_lines(ips@) =~= before.push(ipv4_text(o)));
                }
            },
            None => {},
        }
        i = i + 1;
    }
    assert(cs.take(i as int) =~= cs);
    let mut out: Vec<char> = Vec::new();
    if ips.len() == 0 {
        out.push('-');
        out.push('-');
        assert(out@ =~= seq!['-', '-']);
    } else {
        let ghost iv = char_lines(ips@);
        let mut k: usize = 0;
        while k < ips.len()
            invariant
                k <= ips@.len(),
                iv == char_lines(ips@),
                out@ == join(iv.take(k as int), seq![',', ' ']),
            decreases ips@.len() - k,
        {
            assert(iv.take(k + 1).drop_last() =~= iv.take(k as int));
            assert(iv.take(k + 1).last() == ips@[k as int]@);
            if k > 0 {
                out.push(',');
                out.push(' ');
            }
            let ghost o0 = out@;
            extend_chars(&mut out, ips[k].as_slice());
            proof {
                if k == 0 {
                    assert(iv.take(1)[0] == ips@[0]@);
                    assert(out@ =~= ips@[0]@);
                } else {
                    assert(out@ =~= join(iv.take(k as int), seq![',', ' ']) + seq![',', ' '] + ips@[k as int]@);
                }
            }
            k = k + 1;
        }
        assert(iv.take(k as int) =~= iv);
    }
    string_from_chars(out.as_slice())
}

/// The user published when no login user is found.
pub const DEFAULT_SSH_USER: &'static str = "pi";

pub open spec fn nologin_suffix() -> Seq<char> {
    seq!['/', 'n', 'o', 'l', 'o', 'g', 'i', 'n']
}

pub open spec fn false_suffix() -> Seq<char> {
    seq!['/', 'f', 'a', 'l', 's', 'e']
}

/// The user of a `/etc/passwd` line, if it is a normal user (uid from 1000
/// to 65533) with a login shell.
pub open spec fn login_user_of_line(line: Seq<char>) -> Option<Seq<char>> {
    let f = split_all(line, seq![':']);
    if f.len() >= 7 {
        match parse_u32_spec(f[2]) {
            Some(uid) => if 1000 <= uid < 65534 && !ends_with(f[6], nologin_suffix()) && !ends_with(
                f[6],
                false_suffix(),
            ) {
                Some(f[0])
            } else {
                None
            },
            None => None,
        }
    } else {
        None
    }
}

pub open spec fn first_login_user(lines: Seq<Seq<char>>) -> Option<Seq<char>>
    decreases lines.len(),
{
    if lines.len() == 0 {
        None
    } else {
        match login_user_of_line(lines[0]) {
            Some(u) => Some(u),
            None => first_login_user(lines.drop_first()),
        }
    }
}

/// The SSH login user for the contents of `/etc/passwd`: the first normal
/// user with a login shell, else `pi`.
pub open spec fn ssh_user_of(passwd: Seq<char>) -> Seq<char> {
    match first_login_user(lines_of(passwd)) {
        Some(u) => u,
        None => DEFAULT_SSH_USER@,
    }
}

fn login_user_exec(line: &[char]) -> (r: Option<Vec<char>>)
    ensures
        r matches Some(u) ==> login_user_of_line(line@) == Some(u@),
        r is None ==> login_user_of_line(line@) is None,
{
    let colon = vec![':'];
    assert(colon@ =~= seq![':']);
    let f = split_exec(line, colon.as_slice());
    let ghost fs = split_all(line@, seq![':']);
    assert(f@.len() == fs.len());
    if f.len() < 7 {
        return None;
    }
    assert(f@[2]@ == fs[2]);
    assert(f@[6]@ == fs[6]);
    assert(f@[0]@ == fs[0]);
    match parse_u32(f[2].as_slice()) {
        Some(uid) => {
            let nologin = vec!['/', 'n', 'o', 'l', 'o', 'g', 'i', 'n'];
            let fals = vec!['/', 'f', 'a', 'l', 's', 'e'];
            assert(nologin@ =~= nologin_suffix());
            assert(fals@ =~= false_suffix());
            if 1000 <= uid && uid < 65534 && !ends_with_chars(f[6].as_slice(), nologin.as_slice())
                && !ends_with_chars(f[6].as_slice(), fals.as_slice()) {
                Some(copy_chars(f[0].as_slice(), 0, f[0].len()))
            } else {
                None
            }
        },
        None => None,
    }
}

/// The SSH login user named by the contents of `/etc/passwd`.
pub fn detect_ssh_user(passwd: &str) -> (r: String)
    ensures
        r@ == ssh_user_of(passwd@),
{
    let s = chars_of(passwd);
    let lines = lines_chars(s.as_slice());
    let ghost ls = char_lines(lines@);
    let mut i: usize = 0;
    assert(ls.skip(0) =~= ls);
    while i < lines.len()
        invariant
            i <= lines@.len(),
            ls == char_lines(lines@),
            ls == lines_of(passwd@),
            first_login_user(ls) == first_login_user(ls.skip(i as int)),
        decreases lines@.len() - i,
    {
        let ghost rest = ls.skip(i as int);
        assert(rest[0] == lines@[i as int]@);
        assert(rest.drop_first() =~= ls.skip(i + 1));
        match login_user_exec(lines[i].as_slice()) {
            Some(u) => {
                return string_from_chars(u.as_slice());
            },
            None => {},
        }
        i = i + 1;
    }
    assert(ls.skip(i as int) =~= seq![]);
    String::from_str(DEFAULT_SSH_USER)
}

/// The name the service gives itself.
pub const SERVICE_NAME_TEXT: &'static str = "PiSugar BLE Wifi Config";

/// The model published when none can be read.
pub const UNKNOWN_MODEL: &'static str = "Unknown";

/// `s` without its trailing NUL characters.
pub open spec fn trim_nuls(s: Seq<char>) -> Seq<char>
    decreases s.len(),
{
    if s.len() > 0 && s.last() == '\0' {
        trim_nuls(s.drop_last())
    } else {
        s
    }
}

/// The model name from the contents of `/proc/device-tree/model`, without
/// its trailing NUL characters.
pub fn device_model_text(raw: &str) -> (r: String)
    ensures
        r@ == trim_nuls(raw@),
{
    let s = chars_of(raw);
    let mut j = s.len();
    assert(s@.take(j as int) =~= s@);
    while j > 0 && s[j - 1] == '\0'
        invariant
            j <= s@.len(),
            trim_nuls(s@) == trim_nuls(s@.take(j as int)),
        decreases j,
    {
        assert(s@.take(j as int).drop_last() =~= s@.take(j - 1));
        j = j - 1;
    }
    proof {
        if j > 0 {
            assert(s@.take(j as int).last() == s@[j - 1]);
        }
    }
    let t = copy_chars(s.as_slice(), 0, j);
    string_from_chars(t.as_slice())
}

/// The value published for an info item whose command failed.
pub const CMD_ERROR: &'static str = "cmd error";

/// The value published for an info item: the command's trimmed output when
/// it succeeded, else `cmd error`.
pub fn info_value_text(success: bool, stdout: &[u8]) -> (r: String)
    ensures
        success ==> r@ == trim(lossy_utf8(stdout@)),
        !success ==> r@ == CMD_ERROR@,
{
    if success {
        let text = from_utf8_lossy(stdout);
        let c = chars_of(text.as_str());
        let t = trim_chars(c.as_slice());
        string_from_chars(t.as_slice())
    } else {
        String::from_str(CMD_ERROR)
    }
}

/// The name published is the text between the first `ESSID:"` of the
/// output and the next `"`, spaces and all: for output `p ESSID:"x" q`, where
/// `x` holds no `"` and no `ESSID:"` begins inside `p`, the name is `x`.
/// Output without `ESSID:"` gives `Not available`.
pub proof fn law_wifi_name_is_essid(p: Seq<char>, x: Seq<char>, q: Seq<char>, other: Seq<char>)
    requires
        forall|k: int| 0 <= k < x.len() ==> x[k] != '"',
        forall|i: int| 0 <= i < p.len() ==> !occurs_at(p + essid_key(), essid_key(), i),
    ensures
        wifi_name_of(p + essid_key() + x + seq!['"'] + q) == x,
        !crate::text::contains_seq(other, essid_key()) ==> wifi_name_of(other) == NOT_AVAILABLE@,
{
    let key = essid_key();
    let s = p + key + x + seq!['"'] + q;
    let n = p.len() as int;
    assert forall|i: int| 0 <= i < n implies !occurs_at(s, key, i) by {
        if occurs_at(s, key, i) {
            let pk = p + key;
            assert forall|m: int| 0 <= m < n + 7 implies #[trigger] s[m] == pk[m] by {}
            assert(s.subrange(i, i + 7) =~= pk.subrange(i, i + 7));
            assert(occurs_at(pk, key, i));
        }
    }
    crate::scan::lemma_first_quoted_skip(s, key, 0, n);
    assert(s.subrange(n, n + 7) =~= key);
    assert forall|j: int| n + 7 <= j < n + 7 + x.len() implies s[j] != '"' by {
        assert(s[j] == x[j - n - 7]);
    }
    assert(s[n + 7 + x.len()] == '"');
    crate::scan::lemma_first_index_at(s, '"', n + 7, n + 7 + x.len());
    assert(s.subrange(n + 7, n + 7 + x.len()) =~= x);
    if !crate::text::contains_seq(other, key) {
        let len = other.len() as int;
        assert forall|i: int| 0 <= i < len implies !occurs_at(other, key, i) by {}
        crate::scan::lemma_first_quoted_skip(other, key, 0, len);
        assert(!occurs_at(other, key, len));
        assert(first_quoted(other, key, len + 1) is None);
    }
}

proof fn lemma_no_colon(x: Seq<char>)
    requires
        forall|k: int| 0 <= k < x.len() ==> x[k] != ':',
    ensures
        !crate::text::contains_seq(x + seq![':'].drop_last(), seq![':']),
{
    assert(x + seq![':'].drop_last() =~= x);
    assert forall|i: int| !occurs_at(x, seq![':'], i) by {
        if occurs_at(x, seq![':'], i) {
            assert(x.subrange(i, i + 1)[0] == x[i]);
        }
    }
}

/// A line of `/etc/passwd`, `name:pw:uid:gid:gecos:home:shell`, names a
/// user to log in as exactly when its user id is from 1000 up to, not
/// including, 65534 (`nobody`) and its shell does not end in `/nologin` or
/// `/false`; the user is then the line's first field.
pub proof fn law_passwd_line_user(
    name: Seq<char>,
    pw: Seq<char>,
    uid: u32,
    gid: Seq<char>,
    gecos: Seq<char>,
    home: Seq<char>,
    shell: Seq<char>,
)
    requires
        forall|k: int| 0 <= k < name.len() ==> name[k] != ':',
        forall|k: int| 0 <= k < pw.len() ==> pw[k] != ':',
        forall|k: int| 0 <= k < gid.len() ==> gid[k] != ':',
        forall|k: int| 0 <= k < gecos.len() ==> gecos[k] != ':',
        forall|k: int| 0 <= k < home.len() ==> home[k] != ':',
        forall|k: int| 0 <= k < shell.len() ==> shell[k] != ':',
    ensures
        login_user_of_line(
            name + seq![':'] + pw + seq![':'] + decimal(uid as nat) + seq![':'] + gid + seq![':'] + gecos + seq![':']
                + home + seq![':'] + shell,
        ) == if 1000 <= uid < 65534 && !ends_with(shell, seq!['/', 'n', 'o', 'l', 'o', 'g', 'i', 'n'])
            && !ends_with(shell, seq!['/', 'f', 'a', 'l', 's', 'e']) {
            Some(name)
        } else {
            None
        },
{
    let c = seq![':'];
    let d = decimal(uid as nat);
    crate::scan::lemma_decimal_value(uid as nat);
    assert forall|k: int| 0 <= k < d.len() implies d[k] != ':' by {
        assert(is_ascii_digit(d[k]));
    }
    let r6 = shell;
    let r5 = home + c + r6;
    let r4 = gecos + c + r5;
    let r3 = gid + c + r4;
    let r2 = d + c + r3;
    let r1 = pw + c + r2;
    let line = name + c + pw + c + d + c + gid + c + gecos + c + home + c + shell;
    assert(line =~= name + c + r1);
    lemma_no_colon(name);
    lemma_no_colon(pw);
    lemma_no_colon(d);
    lemma_no_colon(gid);
    lemma_no_colon(gecos);
    lemma_no_colon(home);
    crate::protocol::lemma_split_prefix(name, c, r1);
    crate::protocol::lemma_split_prefix(pw, c, r2);
    crate::protocol::lemma_split_prefix(d, c, r3);
    crate::protocol::lemma_split_prefix(gid, c, r4);
    crate::protocol::lemma_split_prefix(gecos, c, r5);
    crate::protocol::lemma_split_prefix(home, c, r6);
    assert(!crate::text::contains_seq(shell, c)) by {
        lemma_no_colon(shell);
        assert(shell + c.drop_last() =~= shell);
    }
    crate::protocol::lemma_split_single(shell, c);
    let f = split_all(line, c);
    assert(f =~= seq![name, pw, d, gid, gecos, home, shell]);
    assert(d[0] != '+');
    assert(parse_u32_spec(d) == Some(uid));
    assert(nologin_suffix() =~= seq!['/', 'n', 'o', 'l', 'o', 'g', 'i', 'n']);
    assert(false_suffix() =~= seq!['/', 'f', 'a', 'l', 's', 'e']);
}

proof fn lemma_first_login_user_at(lines: Seq<Seq<char>>, i: int)
    requires
        0 <= i <= lines.len(),
        forall|j: int| 0 <= j < i ==> #[trigger] login_user_of_line(lines[j]) is None,
    ensures
        first_login_user(lines) == first_login_user(lines.skip(i)),
    decreases i,
{
    if i > 0 {
        let rest = lines.drop_first();
        assert forall|j: int| 0 <= j < i - 1 implies #[trigger] login_user_of_line(rest[j]) is None by {
            assert(rest[j] == lines[j + 1]);
        }
        assert(login_user_of_line(lines[0]) is None);
        lemma_first_login_user_at(rest, i - 1);
        assert(rest.skip(i - 1) =~= lines.skip(i));
    } else {
        assert(lines.skip(0) =~= lines);
    }
}

/// The SSH user published is the user named by the first line of
/// `/etc/passwd` that names one; `pi` when no line does.
pub proof fn law_ssh_user_first_normal(passwd: Seq<char>, i: int)
    ensures
        ({
            let ls = lines_of(passwd);
            &&& (forall|j: int| 0 <= j < ls.len() ==> #[trigger] login_user_of_line(ls[j]) is None) ==> ssh_user_of(
                passwd,
            ) == "pi"@
            &&& 0 <= i < ls.len() && login_user_of_line(ls[i]) is Some && (forall|j: int|
                0 <= j < i ==> #[trigger] login_user_of_line(ls[j]) is None) ==> ssh_user_of(passwd)
                == login_user_of_line(ls[i])->0
        }),
{
    let ls = lines_of(passwd);
    reveal_strlit("pi");
    if forall|j: int| 0 <= j < ls.len() ==> #[trigger] login_user_of_line(ls[j]) is None {
        lemma_first_login_user_at(ls, ls.len() as int);
        assert(ls.skip(ls.len() as int).len() == 0);
    }
    if 0 <= i < ls.len() && login_user_of_line(ls[i]) is Some && (forall|j: int|
        0 <= j < i ==> #[trigger] login_user_of_line(ls[j]) is None) {
        lemma_first_login_user_at(ls, i);
        assert(ls.skip(i)[0] == ls[i]);
    }
}

/// The text parses as an IPv4 address that is not loopback (`127.x.x.x`).
pub open spec fn public_ipv4(c: Seq<char>) -> bool {
    match ipv4_octets(c) {
        Some(o) => o.0 != 127,
        None => false,
    }
}

/// The text is the rendering of a public address captured among `caps`.
pub open spec fn rendered_capture(caps: Seq<Seq<char>>, t: Seq<char>) -> bool {
    exists|j: int| 0 <= j < caps.len() && #[trigger] public_ipv4(caps[j]) && t == ipv4_text(ipv4_octets(caps[j])->0)
}

proof fn lemma_listed_ips(caps: Seq<Seq<char>>)
    ensures
        forall|k: int| 0 <= k < listed_ips(caps).len() ==> rendered_capture(caps, #[trigger] listed_ips(caps)[k]),
        forall|j: int|
            0 <= j < caps.len() && #[trigger] public_ipv4(caps[j]) ==> listed_ips(caps).contains(
                ipv4_text(ipv4_octets(caps[j])->0),
            ),
    decreases caps.len(),
{
    if caps.len() > 0 {
        let init = caps.drop_last();
        lemma_listed_ips(init);
        let n = init.len() as int;
        let r0 = listed_ips(init);
        let r = listed_ips(caps);
        let x = caps[n];
        assert(caps.last() == x);
        let added = public_ipv4(x);
        if added {
            assert(r == r0.push(ipv4_text(ipv4_octets(x)->0)));
        } else {
            assert(r == r0);
        }
        assert forall|k: int| 0 <= k < r.len() implies rendered_capture(caps, #[trigger] r[k]) by {
            if k < r0.len() {
                assert(r[k] == r0[k]);
                assert(rendered_capture(init, r0[k]));
                let j = choose|j: int| 0 <= j < init.len() && #[trigger] public_ipv4(init[j]) && r0[k] == ipv4_text(
                    ipv4_octets(init[j])->0,
                );
                assert(caps[j] == init[j]);
            } else {
                assert(public_ipv4(caps[n]));
            }
        }
        assert forall|j: int| 0 <= j < caps.len() && #[trigger] public_ipv4(caps[j]) implies r.contains(
            ipv4_text(ipv4_octets(caps[j])->0),
        ) by {
            if j < n {
                assert(caps[j] == init[j]);
                assert(public_ipv4(init[j]));
                assert(r0.contains(ipv4_text(ipv4_octets(init[j])->0)));
                let k = choose|k: int| 0 <= k < r0.len() && r0[k] == ipv4_text(ipv4_octets(init[j])->0);
                assert(r[k] == r0[k]);
            } else {
                assert(r[r.len() - 1] == ipv4_text(ipv4_octets(x)->0));
            }
        }
    }
}

/// The published address list holds exactly the captured addresses that
/// parse as IPv4 and are not loopback (`127.x.x.x`), each rendered in
/// dotted decimal: every entry is such an address, every such address is an
/// entry, and with none the list reads `--`.
pub proof fn law_ip_list_members(out: Seq<char>)
    ensures
        ({
            let caps = inet_captures_from(out, 0);
            let ips = listed_ips(caps);
            &&& forall|k: int| 0 <= k < ips.len() ==> rendered_capture(caps, #[trigger] ips[k])
            &&& forall|j: int|
                0 <= j < caps.len() && #[trigger] public_ipv4(caps[j]) ==> ips.contains(
                    ipv4_text(ipv4_octets(caps[j])->0),
                )
            &&& ips.len() == 0 ==> ip_list_text(out) == seq!['-', '-']
            &&& ips.len() > 0 ==> ip_list_text(out) == join(ips, seq![',', ' '])
        }),
{
    lemma_listed_ips(inet_captures_from(out, 0));
}

proof fn lemma_decimal_leading(m: nat)
    requires
        m >= 1,
    ensures
        crate::text::radix_digits(m, 10)[0] != '0',
    decreases m,
{
    if m >= 10 {
        vstd::arithmetic::div_mod::lemma_div_decreases(m as int, 10);
        lemma_decimal_leading(m / 10);
        crate::scan::lemma_decimal_value(m / 10);
        let h = crate::text::radix_digits(m / 10, 10);
        assert(crate::text::radix_digits(m, 10) == h.push(crate::text::digit_char(m % 10)));
    } else {
        assert(crate::text::digit_char(m) as nat == m + 48);
    }
}

proof fn lemma_octet_decimal(n: u8)
    ensures
        octet_value(decimal(n as nat)) == Some(n),
        forall|k: int| 0 <= k < decimal(n as nat).len() ==> decimal(n as nat)[k] != '.',
{
    let d = decimal(n as nat);
    crate::scan::lemma_decimal_value(n as nat);
    assert forall|k: int| 0 <= k < d.len() implies d[k] != '.' by {
        assert(is_ascii_digit(d[k]));
    }
    assert(all_ascii_digits(d));
    if n >= 10 {
        lemma_decimal_leading(n as nat);
        let a = n as nat / 10;
        assert(d == crate::text::radix_digits(a, 10).push(crate::text::digit_char(n as nat % 10)));
        if a >= 10 {
            assert(a / 10 < 10);
            assert(crate::text::radix_digits(a, 10) == crate::text::radix_digits(a / 10, 10).push(
                crate::text::digit_char(a % 10),
            ));
        }
    }
}

/// An address rendered in dotted decimal reads back as the same address.
pub proof fn law_ipv4_text_reads_back(o: (u8, u8, u8, u8))
    ensures
        ipv4_octets(ipv4_text(o)) == Some(o),
{
    let dot = seq!['.'];
    let d0 = decimal(o.0 as nat);
    let d1 = decimal(o.1 as nat);
    let d2 = decimal(o.2 as nat);
    let d3 = decimal(o.3 as nat);
    lemma_octet_decimal(o.0);
    lemma_octet_decimal(o.1);
    lemma_octet_decimal(o.2);
    lemma_octet_decimal(o.3);
    let r2 = d2 + dot + d3;
    let r1 = d1 + dot + r2;
    assert(ipv4_text(o) =~= d0 + dot + r1);
    assert forall|x: Seq<char>| (forall|k: int| 0 <= k < x.len() ==> x[k] != '.') implies !crate::text::contains_seq(
        x + dot.drop_last(),
        dot,
    ) by {
        assert(x + dot.drop_last() =~= x);
        assert forall|i: int| !occurs_at(x, dot, i) by {
            if occurs_at(x, dot, i) {
                assert(x.subrange(i, i + 1)[0] == x[i]);
            }
        }
    }
    crate::protocol::lemma_split_prefix(d0, dot, r1);
    crate::protocol::lemma_split_prefix(d1, dot, r2);
    crate::protocol::lemma_split_prefix(d2, dot, d3);
    assert(d3 + dot.drop_last() =~= d3);
    crate::protocol::lemma_split_single(d3, dot);
    assert(split_all(ipv4_text(o), dot) =~= seq![d0, d1, d2, d3]);
}

/// The model name is the file's text with its trailing NUL characters cut
/// and nothing else: the text is the name followed only by NULs, and the
/// name does not end in a NUL.
pub proof fn law_model_drops_trailing_nuls(raw: Seq<char>)
    ensures
        raw == trim_nuls(raw) + Seq::new((raw.len() - trim_nuls(raw).len()) as nat, |i: int| '\0'),
        trim_nuls(raw).len() == 0 || trim_nuls(raw)[trim_nuls(raw).len() - 1] != '\0',
    decreases raw.len(),
{
    if raw.len() > 0 && raw.last() == '\0' {
        let init = raw.drop_last();
        law_model_drops_trailing_nuls(init);
        let t = trim_nuls(init);
        assert(trim_nuls(raw) == t);
        let z = Seq::new((init.len() - t.len()) as nat, |i: int| '\0');
        let z2 = Seq::new((raw.len() - t.len()) as nat, |i: int| '\0');
        assert(z2 =~= z.push('\0'));
        assert(raw =~= init.push('\0'));
        assert(raw =~= t + z2);
    } else {
        assert(raw =~= raw + Seq::new(0, |i: int| '\0'));
    }
}

/// Numbers are rendered in canonical decimal: ASCII digits whose value is
/// the number, with no leading zero (only 0 itself starts with `0`).
pub proof fn law_decimal_is_canonical(n: nat)
    ensures
        decimal(n).len() >= 1,
        all_ascii_digits(decimal(n)),
        digits_value(decimal(n)) == n,
        decimal(n)[0] == '0' ==> n == 0,
{
    crate::scan::lemma_decimal_value(n);
    if n >= 1 {
        lemma_decimal_leading(n);
    }
}

} // verus!
