//! Wi-Fi configuration: the rewrite of `wpa_supplicant.conf` with a new
//! network, the check of `/etc/network/interfaces`, the NetworkManager
//! detection and the messages reported back to the phone.
use vstd::prelude::*;
use crate::text::{
    occurs_at, occurs_at_exec, contains_seq, contains_exec, replace_all, replace_all_exec, decimal,
    push_radix_digits, extend_chars, chars_of, string_from_chars, from_utf8_lossy, lossy_utf8,
};
use crate::scan::{
    first_index_of, lemma_first_index_of, find_char_from, copy_chars, first_quoted, find_quoted,
    first_digits, find_digits, parse_u32_spec, parse_u32,
};
use crate::lines::{trim, trim_end, lines_of, char_lines, trim_chars, trim_end_chars, lines_chars};

verus! {

/// `network={`
pub open spec fn block_open() -> Seq<char> {
    seq!['n', 'e', 't', 'w', 'o', 'r', 'k', '=', '{']
}

/// `ssid="`
pub open spec fn ssid_key() -> Seq<char> {
    seq!['s', 's', 'i', 'd', '=', '"']
}

/// `priority=`
pub open spec fn priority_key() -> Seq<char> {
    seq!['p', 'r', 'i', 'o', 'r', 'i', 't', 'y', '=']
}

/// End (exclusive) of a match of `network=\{[^}]+\}` that starts at `p`.
pub open spec fn block_end_at(s: Seq<char>, p: int) -> Option<int> {
    if occurs_at(s, block_open(), p) {
        match first_index_of(s, '}', p + 9) {
            Some(q) => if p + 9 < q < s.len() {
                Some(q + 1)
            } else {
                None
            },
            None => None,
        }
    } else {
        None
    }
}

/// The network blocks of a configuration from `pos` on, matched left to
/// right without overlap.
pub open spec fn blocks_from(s: Seq<char>, pos: int) -> Seq<Seq<char>>
    decreases s.len() - pos,
{
    if pos < 0 || pos >= s.len() {
        seq![]
    } else {
        match block_end_at(s, pos) {
            Some(e) => seq![s.subrange(pos, e)] + blocks_from(s, e),
            None => blocks_from(s, pos + 1),
        }
    }
}

/// The network blocks of a configuration.
pub open spec fn network_blocks_of(s: Seq<char>) -> Seq<Seq<char>> {
    blocks_from(s, 0)
}

/// The SSID a block names (the capture of `ssid="([^"]*)"`), empty if none.
pub open spec fn block_ssid_text(b: Seq<char>) -> Seq<char> {
    match first_quoted(b, ssid_key(), 0) {
        Some(x) => x,
        None => seq![],
    }
}

/// The priority of a block, when `priority=(\d+)` matches and its digits
/// parse as a `u32`.
pub open spec fn block_priority_value(b: Seq<char>) -> Option<u32> {
    match first_digits(b, priority_key(), 0) {
        Some(d) => parse_u32_spec(d),
        None => None,
    }
}

/// The largest priority among the blocks, 0 if none has one.
pub open spec fn max_priority(blocks: Seq<Seq<char>>) -> u32
    decreases blocks.len(),
{
    if blocks.len() == 0 {
        0
    } else {
        let m = max_priority(blocks.drop_last());
        match block_priority_value(blocks.last()) {
            Some(p) => if p > m {
                p
            } else {
                m
            },
            None => m,
        }
    }
}

/// The configuration with every occurrence of each block removed, block by block.
pub open spec fn strip_blocks(s: Seq<char>, blocks: Seq<Seq<char>>) -> Seq<char>
    decreases blocks.len(),
{
    if blocks.len() == 0 {
        s
    } else {
        replace_all(strip_blocks(s, blocks.drop_last()), blocks.last(), seq![])
    }
}

/// The blocks whose SSID differs from `ssid`, in order.
pub open spec fn kept_blocks(blocks: Seq<Seq<char>>, ssid: Seq<char>) -> Seq<Seq<char>>
    decreases blocks.len(),
{
    if blocks.len() == 0 {
        seq![]
    } else {
        let k = kept_blocks(blocks.drop_last(), ssid);
        if block_ssid_text(blocks.last()) != ssid {
            k.push(blocks.last())
        } else {
            k
        }
    }
}

/// `"\n\t"`, the separator of the blocks in the written file.
pub open spec fn block_sep() -> Seq<char> {
    seq!['\n', '\t']
}

/// The parts joined with `sep` between them.
pub open spec fn join(parts: Seq<Seq<char>>, sep: Seq<char>) -> Seq<char>
    decreases parts.len(),
{
    if parts.len() == 0 {
        seq![]
    } else if parts.len() == 1 {
        parts[0]
    } else {
        join(parts.drop_last(), sep) + sep + parts.last()
    }
}

pub open spec fn country_upper() -> Seq<char> {
    seq!['C', 'o', 'u', 'n', 't', 'r', 'y', '=']
}

pub open spec fn country_lower() -> Seq<char> {
    seq!['c', 'o', 'u', 'n', 't', 'r', 'y', '=']
}

/// `network={\n\t\tssid="`, the start of a written block.
pub open spec fn block_head() -> Seq<char> {
    seq!['n', 'e', 't', 'w', 'o', 'r', 'k', '=', '{', '\n', '\t', '\t', 's', 's', 'i', 'd', '=', '"']
}

/// `"\n\t\tscan_ssid=1\n\t\tpsk="`, between the SSID and the password.
pub open spec fn block_mid() -> Seq<char> {
    seq![
        '"', '\n', '\t', '\t', 's', 'c', 'a', 'n', '_', 's', 's', 'i', 'd', '=', '1', '\n', '\t', '\t', 'p',
        's', 'k', '=', '"',
    ]
}

/// `"\n\t\tpriority=`, between the password and the priority.
pub open spec fn block_pri() -> Seq<char> {
    seq!['"', '\n', '\t', '\t', 'p', 'r', 'i', 'o', 'r', 'i', 't', 'y', '=']
}

/// `\n\t}`, the end of a written block.
pub open spec fn block_tail() -> Seq<char> {
    seq!['\n', '\t', '}']
}

/// The block written for a new network:
/// `network={\n\t\tssid="S"\n\t\tscan_ssid=1\n\t\tpsk="P"\n\t\tpriority=N\n\t}`.
pub open spec fn new_block(ssid: Seq<char>, password: Seq<char>, priority: nat) -> Seq<char> {
    block_head() + ssid + block_mid() + password + block_pri() + decimal(priority) + block_tail()
}

/// The text of a configuration outside its network blocks, as it is written
/// back: `Country=` spelled `country=`, trailing whitespace removed.
pub open spec fn wpa_prefix(conf: Seq<char>) -> Seq<char> {
    trim_end(replace_all(strip_blocks(conf, network_blocks_of(conf)), country_upper(), country_lower()))
}

/// The configuration written for a new network: the text outside the
/// network blocks, then the kept blocks and the new one, each after `"\n\t"`.
pub open spec fn wpa_conf_text(conf: Seq<char>, ssid: Seq<char>, password: Seq<char>) -> Seq<char> {
    let blocks = network_blocks_of(conf);
    let prefix = wpa_prefix(conf);
    let all = kept_blocks(blocks, ssid).push(
        new_block(ssid, password, max_priority(blocks) as nat + 1),
    );
    prefix + block_sep() + join(all, block_sep())
}

fn block_open_chars() -> (v: Vec<char>)
    ensures
        v@ == block_open(),
{
    let v = vec!['n', 'e', 't', 'w', 'o', 'r', 'k', '=', '{'];
    assert(v@ =~= block_open());
    v
}

fn ssid_key_chars() -> (v: Vec<char>)
    ensures
        v@ == ssid_key(),
{
    let v = vec!['s', 's', 'i', 'd', '=', '"'];
    assert(v@ =~= ssid_key());
    v
}

fn priority_key_chars() -> (v: Vec<char>)
    ensures
        v@ == priority_key(),
{
    let v = vec!['p', 'r', 'i', 'o', 'r', 'i', 't', 'y', '='];
    assert(v@ =~= priority_key());
    v
}

/// End of the block matched at `pos`, if one is.
fn block_end_exec(s: &[char], key: &[char], pos: usize) -> (r: Option<usize>)
    requires
        key@ == block_open(),
        pos < s@.len(),
    ensures
        r matches Some(e) ==> block_end_at(s@, pos as int) == Some(e as int),
        r is None ==> block_end_at(s@, pos as int) is None,
{
    if !occurs_at_exec(s, key, pos) {
        return None;
    }
    assert(block_open().len() == 9);
    assert(occurs_at(s@, key@, pos as int));
    assert(pos + 9 <= s@.len());
    assert(s@.len() == s.len());
    proof {
        lemma_first_index_of(s@, '}', pos + 9);
    }
    match find_char_from(s, '}', pos + 9) {
        Some(q) => {
            if pos + 9 < q {
                Some(q + 1)
            } else {
                None
            }
        },
        None => None,
    }
}

/// The network blocks of a configuration, in order.
pub fn network_blocks_chars(s: &[char]) -> (r: Vec<Vec<char>>)
    ensures
        char_lines(r@) == network_blocks_of(s@),
{
    let key = block_open_chars();
    let mut done: Vec<Vec<char>> = Vec::new();
    let mut pos: usize = 0;
    while pos < s.len()
        invariant
            key@ == block_open(),
            pos <= s@.len(),
            char_lines(done@) + blocks_from(s@, pos as int) == blocks_from(s@, 0),
        decreases s@.len() - pos,
    {
        let ghost before = char_lines(done@);
        match block_end_exec(s, key.as_slice(), pos) {
            Some(e) => {
                let b = copy_chars(s, pos, e);
                done.push(b);
                assert(char_lines(done@) =~= before.push(b@));
                assert(char_lines(done@) + blocks_from(s@, e as int) =~= before + blocks_from(
                    s@,
                    pos as int,
                ));
                pos = e;
            },
            None => {
                pos = pos + 1;
            },
        }
    }
    assert(char_lines(done@) + seq![] =~= char_lines(done@));
    done
}

/// The network blocks (`network={...}`) of a `wpa_supplicant.conf` text, in order.
pub fn network_blocks(conf: &str) -> (r: Vec<String>)
    ensures
        r@.map_values(|b: String| b@) == network_blocks_of(conf@),
{
    let s = chars_of(conf);
    let blocks = network_blocks_chars(s.as_slice());
    let mut r: Vec<String> = Vec::new();
    let mut i: usize = 0;
    while i < blocks.len()
        invariant
            i <= blocks@.len(),
            char_lines(blocks@) == network_blocks_of(conf@),
            r@.map_values(|b: String| b@) == char_lines(blocks@).take(i as int),
        decreases blocks@.len() - i,
    {
        let b = string_from_chars(blocks[i].as_slice());
        let ghost before = r@.map_values(|b: String| b@);
        r.push(b);
        assert(r@.map_values(|b: String| b@) =~= before.push(b@));
        assert(char_lines(blocks@).take(i + 1) =~= char_lines(blocks@).take(i as int).push(
            blocks@[i as int]@,
        ));
        i = i + 1;
    }
    assert(char_lines(blocks@).take(i as int) =~= char_lines(blocks@));
    r
}

fn block_ssid_chars(b: &[char], key: &[char]) -> (r: Vec<char>)
    requires
        key@ == ssid_key(),
    ensures
        r@ == block_ssid_text(b@),
{
    match find_quoted(b, key) {
        Some(v) => v,
        None => Vec::new(),
    }
}

/// The SSID a network block names: the capture of `ssid="([^"]*)"`.
pub fn block_ssid(block: &str) -> (r: Option<String>)
    ensures
        r matches Some(x) ==> first_quoted(block@, ssid_key(), 0) == Some(x@),
        r is None ==> first_quoted(block@, ssid_key(), 0) is None,
{
    let b = chars_of(block);
    let key = ssid_key_chars();
    match find_quoted(b.as_slice(), key.as_slice()) {
        Some(v) => Some(string_from_chars(v.as_slice())),
        None => None,
    }
}

/// The digits of a block's priority: the capture of `priority=(\d+)`.
pub fn block_priority(block: &str) -> (r: Option<String>)
    ensures
        r matches Some(x) ==> first_digits(block@, priority_key(), 0) == Some(x@),
        r is None ==> first_digits(block@, priority_key(), 0) is None,
{
    let b = chars_of(block);
    let key = priority_key_chars();
    match find_digits(b.as_slice(), key.as_slice()) {
        Some(v) => Some(string_from_chars(v.as_slice())),
        None => None,
    }
}

/// Parses a number as `str::parse::<u32>` does.
pub fn parse_u32_str(text: &str) -> (r: Option<u32>)
    ensures
        r == parse_u32_spec(text@),
{
    let t = chars_of(text);
    parse_u32(t.as_slice())
}

fn block_priority_exec(b: &[char], key: &[char]) -> (r: Option<u32>)
    requires
        key@ == priority_key(),
    ensures
        r == block_priority_value(b@),
{
    match find_digits(b, key) {
        Some(d) => parse_u32(d.as_slice()),
        None => None,
    }
}

/// The largest priority of the blocks of a configuration, 0 if none has one.
pub fn wpa_max_priority(conf: &str) -> (r: u32)
    ensures
        r == max_priority(network_blocks_of(conf@)),
{
    let s = chars_of(conf);
    let blocks = network_blocks_chars(s.as_slice());
    let key = priority_key_chars();
    let mut m: u32 = 0;
    let mut i: usize = 0;
    while i < blocks.len()
        invariant
            i <= blocks@.len(),
            key@ == priority_key(),
            m == max_priority(char_lines(blocks@).take(i as int)),
        decreases blocks@.len() - i,
    {
        let ghost bs = char_lines(blocks@);
        assert(bs.take(i + 1).drop_last() =~= bs.take(i as int));
        assert(bs.take(i + 1).last() == blocks@[i as int]@);
        match block_priority_exec(blocks[i].as_slice(), key.as_slice()) {
            Some(p) => {
                if p > m {
                    m = p;
                }
            },
            None => {},
        }
        i = i + 1;
    }
    assert(char_lines(blocks@).take(i as int) =~= char_lines(blocks@));
    m
}

fn new_block_chars(ssid: &[char], password: &[char], priority: u32) -> (r: Vec<char>)
    requires
        priority < u32::MAX,
    ensures
        r@ == new_block(ssid@, password@, priority as nat + 1),
{
    let mut r = vec!['n', 'e', 't', 'w', 'o', 'r', 'k', '=', '{', '\n', '\t', '\t', 's', 's', 'i', 'd', '=', '"'];
    let ghost p1 = r@;
    extend_chars(&mut r, ssid);
    let p2 = vec![
        '"', '\n', '\t', '\t', 's', 'c', 'a', 'n', '_', 's', 's', 'i', 'd', '=', '1', '\n', '\t', '\t', 'p', 's', 'k', '=', '"',
    ];
    extend_chars(&mut r, p2.as_slice());
    extend_chars(&mut r, password);
    let p3 = vec!['"', '\n', '\t', '\t', 'p', 'r', 'i', 'o', 'r', 'i', 't', 'y', '='];
    extend_chars(&mut r, p3.as_slice());
    let n: u64 = priority as u64 + 1;
    push_radix_digits(n, 10, &mut r);
    let p4 = vec!['\n', '\t', '}'];
    extend_chars(&mut r, p4.as_slice());
    assert(r@ =~= new_block(ssid@, password@, priority as nat + 1));
    r
}

fn block_sep_chars() -> (v: Vec<char>)
    ensures
        v@ == block_sep(),
{
    let v = vec!['\n', '\t'];
    assert(v@ =~= block_sep());
    v
}

/// The parts joined with `sep` between them.
fn join_chars(parts: &Vec<Vec<char>>, sep: &[char]) -> (r: Vec<char>)
    ensures
        r@ == join(char_lines(parts@), sep@),
{
    let mut r: Vec<char> = Vec::new();
    let mut i: usize = 0;
    while i < parts.len()
        invariant
            i <= parts@.len(),
            r@ == join(char_lines(parts@).take(i as int), sep@),
        decreases parts@.len() - i,
    {
        let ghost ps = char_lines(parts@);
        assert(ps.take(i + 1).drop_last() =~= ps.take(i as int));
        assert(ps.take(i + 1).last() == parts@[i as int]@);
        if i > 0 {
            extend_chars(&mut r, sep);
        }
        extend_chars(&mut r, parts[i].as_slice());
        proof {
            if i == 0 {
                assert(ps.take(1)[0] == parts@[0]@);
                assert(r@ =~= parts@[0]@);
            }
        }
        i = i + 1;
    }
    assert(char_lines(parts@).take(i as int) =~= char_lines(parts@));
    r
}

/// The configuration after adding a network: every existing block is taken
/// out of the text, blocks naming the same SSID are dropped, the others are
/// written back after the remaining text, followed by a new block whose
/// priority is one above the largest one found.
pub fn rewrite_wpa_conf(conf: &str, ssid: &str, password: &str) -> (r: String)
    requires
        max_priority(network_blocks_of(conf@)) < u32::MAX,
    ensures
        r@ == wpa_conf_text(conf@, ssid@, password@),
{
    let s = chars_of(conf);
    let ssid_c = chars_of(ssid);
    let pass_c = chars_of(password);
    let blocks = network_blocks_chars(s.as_slice());
    let skey = ssid_key_chars();
    let pkey = priority_key_chars();
    let ghost bs = char_lines(blocks@);
    let mut m: u32 = 0;
    let mut prefix: Vec<char> = copy_chars(s.as_slice(), 0, s.len());
    let mut kept: Vec<Vec<char>> = Vec::new();
    let empty: Vec<char> = Vec::new();
    assert(s@.subrange(0, s@.len() as int) =~= s@);
    assert(bs.take(0) =~= seq![]);
    let mut i: usize = 0;
    while i < blocks.len()
        invariant
            i <= blocks@.len(),
            bs == char_lines(blocks@),
            skey@ == ssid_key(),
            pkey@ == priority_key(),
            empty@ == Seq::<char>::empty(),
            m == max_priority(bs.take(i as int)),
            prefix@ == strip_blocks(s@, bs.take(i as int)),
            char_lines(kept@) == kept_blocks(bs.take(i as int), ssid_c@),
        decreases blocks@.len() - i,
    {
        assert(bs.take(i + 1).drop_last() =~= bs.take(i as int));
        assert(bs.take(i + 1).last() == blocks@[i as int]@);
        let b = &blocks[i];
        match block_priority_exec(b.as_slice(), pkey.as_slice()) {
            Some(p) => {
                if p > m {
                    m = p;
                }
            },
            None => {},
        }
        if b.len() > 0 {
            prefix = replace_all_exec(prefix.as_slice(), b.as_slice(), empty.as_slice());
        } else {
            assert(replace_all(prefix@, b@, empty@) == prefix@);
        }
        let bssid = block_ssid_chars(b.as_slice(), skey.as_slice());
        let ghost before = char_lines(kept@);
        if !crate::text::chars_eq(bssid.as_slice(), ssid_c.as_slice()) {
            let bc = copy_chars(b.as_slice(), 0, b.len());
            assert(bc@ =~= b@);
            kept.push(bc);
            assert(char_lines(kept@) =~= before.push(b@));
        }
        i = i + 1;
    }
    assert(bs.take(i as int) =~= bs);
    proof {
        assert(bs == network_blocks_of(conf@));
    }
    let cu = vec!['C', 'o', 'u', 'n', 't', 'r', 'y', '='];
    let cl = vec!['c', 'o', 'u', 'n', 't', 'r', 'y', '='];
    assert(cu@ =~= country_upper());
    assert(cl@ =~= country_lower());
    let replaced = replace_all_exec(prefix.as_slice(), cu.as_slice(), cl.as_slice());
    let mut out = trim_end_chars(replaced.as_slice());
    let nb = new_block_chars(ssid_c.as_slice(), pass_c.as_slice(), m);
    let ghost kv = char_lines(kept@);
    kept.push(nb);
    assert(char_lines(kept@) =~= kv.push(nb@));
    let sep = block_sep_chars();
    let joined = join_chars(&kept, sep.as_slice());
    extend_chars(&mut out, sep.as_slice());
    extend_chars(&mut out, joined.as_slice());
    assert(out@ =~= wpa_conf_text(conf@, ssid@, password@));
    string_from_chars(out.as_slice())
}

/// `interface `
pub open spec fn interface_any() -> Seq<char> {
    seq!['i', 'n', 't', 'e', 'r', 'f', 'a', 'c', 'e', ' ']
}

/// `interface wlan0`
pub open spec fn interface_wlan0() -> Seq<char> {
    interface_any() + seq!['w', 'l', 'a', 'n', '0']
}

/// `nohook wpa_supplicant`
pub open spec fn nohook_wpa() -> Seq<char> {
    seq!['n', 'o', 'h', 'o', 'o', 'k', ' ', 'w', 'p', 'a', '_', 's', 'u', 'p', 'p', 'l', 'i', 'c', 'a', 'n', 't']
}

/// A trimmed line that is not a comment.
pub open spec fn active_line(t: Seq<char>) -> bool {
    !(t.len() > 0 && t[0] == '#')
}

/// One line of `/etc/network/interfaces`: the state is whether a `wlan0`
/// stanza is open and whether no `nohook wpa_supplicant` was found in one.
pub open spec fn wlan0_step(st: (bool, bool), line: Seq<char>) -> (bool, bool) {
    let t = trim(line);
    let f1 = if st.0 && contains_seq(t, interface_any()) && active_line(t) {
        false
    } else {
        st.0
    };
    let f2 = if contains_seq(t, interface_wlan0()) && active_line(t) {
        true
    } else {
        f1
    };
    let ok = if f2 && contains_seq(t, nohook_wpa()) && active_line(t) {
        false
    } else {
        st.1
    };
    (f2, ok)
}

pub open spec fn wlan0_scan(lines: Seq<Seq<char>>) -> (bool, bool)
    decreases lines.len(),
{
    if lines.len() == 0 {
        (false, true)
    } else {
        wlan0_step(wlan0_scan(lines.drop_last()), lines.last())
    }
}

/// No active `nohook wpa_supplicant` line inside an active `interface wlan0` stanza.
pub open spec fn interfaces_ok(data: Seq<char>) -> bool {
    wlan0_scan(lines_of(data)).1
}

/// Whether the contents of `/etc/network/interfaces` leave wlan0 to
/// wpa_supplicant (no `nohook wpa_supplicant` in its stanza).
pub fn is_wlan0_ok(interfaces: &str) -> (r: bool)
    ensures
        r == interfaces_ok(interfaces@),
{
    let s = chars_of(interfaces);
    let lines = lines_chars(s.as_slice());
    let any = vec!['i', 'n', 't', 'e', 'r', 'f', 'a', 'c', 'e', ' '];
    let wlan0 = vec!['i', 'n', 't', 'e', 'r', 'f', 'a', 'c', 'e', ' ', 'w', 'l', 'a', 'n', '0'];
    let nohook = vec![
        'n', 'o', 'h', 'o', 'o', 'k', ' ', 'w', 'p', 'a', '_', 's', 'u', 'p', 'p', 'l', 'i', 'c', 'a', 'n', 't',
    ];
    assert(any@ =~= interface_any());
    assert(wlan0@ =~= interface_wlan0());
    assert(nohook@ =~= nohook_wpa());
    let ghost ls = char_lines(lines@);
    let mut found = false;
    let mut ok = true;
    let mut i: usize = 0;
    assert(ls.take(0) =~= seq![]);
    while i < lines.len()
        invariant
            i <= lines@.len(),
            ls == char_lines(lines@),
            any@ == interface_any(),
            wlan0@ == interface_wlan0(),
            nohook@ == nohook_wpa(),
            (found, ok) == wlan0_scan(ls.take(i as int)),
        decreases lines@.len() - i,
    {
        assert(ls.take(i + 1).drop_last() =~= ls.take(i as int));
        assert(ls.take(i + 1).last() == lines@[i as int]@);
        let t = trim_chars(lines[i].as_slice());
        let active = !(t.len() > 0 && t[0] == '#');
        if found && contains_exec(t.as_slice(), any.as_slice()) && active {
            found = false;
        }
        if contains_exec(t.as_slice(), wlan0.as_slice()) && active {
            found = true;
        }
        if found && contains_exec(t.as_slice(), nohook.as_slice()) && active {
            ok = false;
        }
        i = i + 1;
    }
    assert(ls.take(i as int) =~= ls);
    ok
}

/// The `wlan0` row of `nmcli dev status`, as far as the service reads it.
pub enum NmWlan0 {
    /// No line names wlan0.
    Absent,
    /// The first line naming wlan0: whether it says `unavailable` (the
    /// radio is then unblocked) and whether it says `connected` or
    /// `disconnected` (NetworkManager manages it).
    Listed { unavailable: bool, managed: bool },
}

/// The first line containing `pat`.
pub open spec fn first_line_with(lines: Seq<Seq<char>>, pat: Seq<char>) -> Option<Seq<char>>
    decreases lines.len(),
{
    if lines.len() == 0 {
        None
    } else if contains_seq(lines[0], pat) {
        Some(lines[0])
    } else {
        first_line_with(lines.drop_first(), pat)
    }
}

pub open spec fn wlan0_word() -> Seq<char> {
    seq!['w', 'l', 'a', 'n', '0']
}

pub open spec fn unavailable_word() -> Seq<char> {
    seq!['u', 'n', 'a', 'v', 'a', 'i', 'l', 'a', 'b', 'l', 'e']
}

pub open spec fn connected_word() -> Seq<char> {
    seq!['c', 'o', 'n', 'n', 'e', 'c', 't', 'e', 'd']
}

pub open spec fn disconnected_word() -> Seq<char> {
    seq!['d', 'i', 's'] + connected_word()
}

/// What the service reads from the text of `nmcli dev status`.
pub open spec fn nm_wlan0_of(out: Seq<char>) -> NmWlan0 {
    match first_line_with(lines_of(out), wlan0_word()) {
        None => NmWlan0::Absent,
        Some(l) => NmWlan0::Listed {
            unavailable: contains_seq(l, unavailable_word()),
            managed: contains_seq(l, connected_word()) || contains_seq(l, disconnected_word()),
        },
    }
}

/// Reads the wlan0 row from the standard output of `nmcli dev status`.
pub fn nm_wlan0_status(nmcli_stdout: &[u8]) -> (r: NmWlan0)
    ensures
        r == nm_wlan0_of(lossy_utf8(nmcli_stdout@)),
{
    let text = from_utf8_lossy(nmcli_stdout);
    let s = chars_of(text.as_str());
    let lines = lines_chars(s.as_slice());
    let w = vec!['w', 'l', 'a', 'n', '0'];
    let un = vec!['u', 'n', 'a', 'v', 'a', 'i', 'l', 'a', 'b', 'l', 'e'];
    let co = vec!['c', 'o', 'n', 'n', 'e', 'c', 't', 'e', 'd'];
    let dc = vec!['d', 'i', 's', 'c', 'o', 'n', 'n', 'e', 'c', 't', 'e', 'd'];
    assert(w@ =~= wlan0_word());
    assert(un@ =~= unavailable_word());
    assert(co@ =~= connected_word());
    assert(dc@ =~= disconnected_word());
    let ghost ls = char_lines(lines@);
    let mut i: usize = 0;
    assert(ls.skip(0) =~= ls);
    while i < lines.len()
        invariant
            i <= lines@.len(),
            ls == char_lines(lines@),
            ls == lines_of(text@),
            text@ == lossy_utf8(nmcli_stdout@),
            w@ == wlan0_word(),
            un@ == unavailable_word(),
            co@ == connected_word(),
            dc@ == disconnected_word(),
            first_line_with(ls, wlan0_word()) == first_line_with(ls.skip(i as int), wlan0_word()),
        decreases lines@.len() - i,
    {
        let ghost rest = ls.skip(i as int);
        assert(rest[0] == lines@[i as int]@);
        assert(rest.drop_first() =~= ls.skip(i + 1));
        let l = &lines[i];
        if contains_exec(l.as_slice(), w.as_slice()) {
            let unavailable = contains_exec(l.as_slice(), un.as_slice());
            let managed = contains_exec(l.as_slice(), co.as_slice()) || contains_exec(l.as_slice(), dc.as_slice());
            return NmWlan0::Listed { unavailable, managed };
        }
        i = i + 1;
    }
    assert(ls.skip(i as int) =~= seq![]);
    NmWlan0::Absent
}

/// The message for a failed `nmcli connection add`, from its standard error.
pub fn nm_add_failed_message(stderr: &[u8]) -> (r: String)
    ensures
        r@ == "nmcli add failed: "@ + lossy_utf8(stderr@),
{
    let mut r = String::from_str("nmcli add failed: ");
    let e = from_utf8_lossy(stderr);
    r.append(e.as_str());
    r
}

/// The message for `nmcli connection up`, from its exit status and output:
/// on success the trimmed standard output, else the standard error.
pub fn nm_up_message(success: bool, stdout: &[u8], stderr: &[u8]) -> (r: String)
    ensures
        success ==> r@ == "Successfully connected to Wi-Fi: "@ + trim(lossy_utf8(stdout@)),
        !success ==> r@ == "Failed to connect: "@ + lossy_utf8(stderr@),
{
    if success {
        let mut r = String::from_str("Successfully connected to Wi-Fi: ");
        let o = from_utf8_lossy(stdout);
        let oc = chars_of(o.as_str());
        let t = trim_chars(oc.as_slice());
        let ts = string_from_chars(t.as_slice());
        r.append(ts.as_str());
        r
    } else {
        let mut r = String::from_str("Failed to connect: ");
        let e = from_utf8_lossy(stderr);
        r.append(e.as_str());
        r
    }
}

/// How one attempt to start wpa_supplicant ended.
pub enum LaunchOutcome {
    /// It exited with success, printing this.
    Started { stdout: Vec<u8> },
    /// It exited with failure, printing this on standard error.
    Failed { stderr: Vec<u8> },
    /// It could not be run; the error's text.
    NotRun { error: String },
}

/// Attempts left to start wpa_supplicant.
pub const WPA_LAUNCH_TRIES: u32 = 10;

/// The retry loop that starts wpa_supplicant: up to ten attempts, the last
/// message kept, stopping at the first success.
pub struct WpaLauncher {
    pub tries_left: u32,
    pub message: String,
    pub started: bool,
}

impl WpaLauncher {
    pub fn new() -> (l: WpaLauncher)
        ensures
            l.tries_left == WPA_LAUNCH_TRIES,
            l.message@ == Seq::<char>::empty(),
            !l.started,
    {
        WpaLauncher { tries_left: WPA_LAUNCH_TRIES, message: String::new(), started: false }
    }

    /// Whether another attempt is due.
    pub fn wants_attempt(&self) -> (r: bool)
        ensures
            r == (!self.started && self.tries_left > 0),
    {
        !self.started && self.tries_left > 0
    }

    /// Records an attempt: a success ends the loop with its output as the
    /// message; a failure uses up one try and keeps its error as the message.
    pub fn record(&mut self, outcome: LaunchOutcome)
        requires
            !old(self).started,
            old(self).tries_left > 0,
        ensures
            outcome matches LaunchOutcome::Started { stdout } ==> final(self).started
                && final(self).tries_left == old(self).tries_left && final(self).message@ == lossy_utf8(stdout@),
            outcome matches LaunchOutcome::Failed { stderr } ==> !final(self).started
                && final(self).tries_left == old(self).tries_left - 1 && final(self).message@
                == "wpa_supplicant error: "@ + lossy_utf8(stderr@),
            outcome matches LaunchOutcome::NotRun { error } ==> !final(self).started
                && final(self).tries_left == old(self).tries_left - 1 && final(self).message@
                == "Command failed: "@ + error@,
    {
        match outcome {
            LaunchOutcome::Started { stdout } => {
                self.message = from_utf8_lossy(stdout.as_slice());
                self.started = true;
            },
            LaunchOutcome::Failed { stderr } => {
                let mut m = String::from_str("wpa_supplicant error: ");
                let e = from_utf8_lossy(stderr.as_slice());
                m.append(e.as_str());
                self.message = m;
                self.tries_left = self.tries_left - 1;
            },
            LaunchOutcome::NotRun { error } => {
                let mut m = String::from_str("Command failed: ");
                m.append(error.as_str());
                self.message = m;
                self.tries_left = self.tries_left - 1;
            },
        }
    }

    /// The final report: the tries left, a space, the last message.
    pub fn report(&self) -> (r: String)
        ensures
            r@ == decimal(self.tries_left as nat) + seq![' '] + self.message@,
    {
        let mut v: Vec<char> = Vec::new();
        push_radix_digits(self.tries_left as u64, 10, &mut v);
        v.push(' ');
        let m = chars_of(self.message.as_str());
        extend_chars(&mut v, m.as_slice());
        string_from_chars(v.as_slice())
    }
}

/// Where each part of a written block starts.
pub open spec fn block_offsets(ssid: Seq<char>, password: Seq<char>, digits: Seq<char>) -> (int, int, int, int, int) {
    let o_mid: int = 18 + ssid.len() as int;
    let o_pass: int = o_mid + 23;
    let o_pri: int = o_pass + password.len() as int;
    let o_digits: int = o_pri + 13;
    let o_tail: int = o_digits + digits.len() as int;
    (o_mid, o_pass, o_pri, o_digits, o_tail)
}

proof fn lemma_block_index(ssid: Seq<char>, password: Seq<char>, n: nat)
    ensures
        ({
            let nb = new_block(ssid, password, n);
            let d = decimal(n);
            let (o_mid, o_pass, o_pri, o_digits, o_tail) = block_offsets(ssid, password, d);
            &&& nb.len() == o_tail + 3
            &&& forall|k: int| 0 <= k < 18 ==> #[trigger] nb[k] == block_head()[k]
            &&& forall|k: int| 18 <= k < o_mid ==> #[trigger] nb[k] == ssid[k - 18]
            &&& forall|k: int| o_mid <= k < o_pass ==> #[trigger] nb[k] == block_mid()[k - o_mid]
            &&& forall|k: int| o_pass <= k < o_pri ==> #[trigger] nb[k] == password[k - o_pass]
            &&& forall|k: int| o_pri <= k < o_digits ==> #[trigger] nb[k] == block_pri()[k - o_pri]
            &&& forall|k: int| o_digits <= k < o_tail ==> #[trigger] nb[k] == d[k - o_digits]
            &&& forall|k: int| o_tail <= k < o_tail + 3 ==> #[trigger] nb[k] == block_tail()[k - o_tail]
        }),
{
    let d = decimal(n);
    let h = block_head();
    let x1 = h + ssid;
    let x2 = x1 + block_mid();
    let x3 = x2 + password;
    let x4 = x3 + block_pri();
    let x5 = x4 + d;
    let nb = x5 + block_tail();
    assert(nb == new_block(ssid, password, n));
    let (o_mid, o_pass, o_pri, o_digits, o_tail) = block_offsets(ssid, password, d);
    assert forall|k: int| 0 <= k < 18 implies #[trigger] nb[k] == h[k] by {
        assert(nb[k] == x5[k] && x5[k] == x4[k] && x4[k] == x3[k] && x3[k] == x2[k] && x2[k] == x1[k]);
    }
    assert forall|k: int| 18 <= k < o_mid implies #[trigger] nb[k] == ssid[k - 18] by {
        assert(nb[k] == x5[k] && x5[k] == x4[k] && x4[k] == x3[k] && x3[k] == x2[k] && x2[k] == x1[k]);
    }
    assert forall|k: int| o_mid <= k < o_pass implies #[trigger] nb[k] == block_mid()[k - o_mid] by {
        assert(nb[k] == x5[k] && x5[k] == x4[k] && x4[k] == x3[k] && x3[k] == x2[k]);
    }
    assert forall|k: int| o_pass <= k < o_pri implies #[trigger] nb[k] == password[k - o_pass] by {
        assert(nb[k] == x5[k] && x5[k] == x4[k] && x4[k] == x3[k]);
    }
    assert forall|k: int| o_pri <= k < o_digits implies #[trigger] nb[k] == block_pri()[k - o_pri] by {
        assert(nb[k] == x5[k] && x5[k] == x4[k]);
    }
    assert forall|k: int| o_digits <= k < o_tail implies #[trigger] nb[k] == d[k - o_digits] by {
        assert(nb[k] == x5[k]);
    }
}

proof fn lemma_new_block_ssid(ssid: Seq<char>, password: Seq<char>, n: nat)
    requires
        forall|k: int| 0 <= k < ssid.len() ==> ssid[k] != '"',
    ensures
        first_quoted(new_block(ssid, password, n), ssid_key(), 0) == Some(ssid),
{
    let nb = new_block(ssid, password, n);
    let key = ssid_key();
    let h = block_head();
    lemma_block_index(ssid, password, n);
    let (o_mid, o_pass, o_pri, o_digits, o_tail) = block_offsets(ssid, password, decimal(n));
    assert forall|i: int| 0 <= i < 12 implies !occurs_at(nb, key, i) by {
        if occurs_at(nb, key, i) {
            assert(nb.subrange(i, i + 6)[0] == key[0]);
            assert(nb[i] == h[i]);
            assert(h[i] != 's');
        }
    }
    crate::scan::lemma_first_quoted_skip(nb, key, 0, 12);
    assert(nb.subrange(12, 18) =~= key) by {
        assert forall|k: int| 0 <= k < 6 implies #[trigger] nb.subrange(12, 18)[k] == key[k] by {
            assert(nb[12 + k] == h[12 + k]);
        }
    }
    assert(nb[o_mid] == block_mid()[0]);
    crate::scan::lemma_first_index_at(nb, '"', 18, o_mid);
    assert(nb.subrange(18, o_mid) =~= ssid);
}

/// An occurrence of `key` in `t` at `i` that does not fit before `stop`
/// covers `stop`, so `key` holds the character there.
proof fn lemma_occurrence_covers(t: Seq<char>, key: Seq<char>, i: int, stop: int)
    requires
        occurs_at(t, key, i),
        i <= stop < i + key.len(),
    ensures
        key[stop - i] == t[stop],
{
    assert(t.subrange(i, i + key.len())[stop - i] == t[stop]);
}

/// An occurrence of `key` in `t` at `i` inside `[lo, hi)`, where `t` holds
/// `part`, is an occurrence in `part`.
proof fn lemma_occurrence_inside(t: Seq<char>, key: Seq<char>, i: int, lo: int, hi: int, part: Seq<char>)
    requires
        occurs_at(t, key, i),
        lo <= i,
        i + key.len() <= hi,
        hi - lo == part.len(),
        forall|k: int| lo <= k < hi ==> #[trigger] t[k] == part[k - lo],
    ensures
        occurs_at(part, key, i - lo),
{
    assert(part.subrange(i - lo, i - lo + key.len()) =~= t.subrange(i, i + key.len())) by {
        assert forall|k: int| 0 <= k < key.len() implies #[trigger] part.subrange(i - lo, i - lo + key.len())[k]
            == t.subrange(i, i + key.len())[k] by {
            assert(t[i + k] == part[i + k - lo]);
        }
    }
}

proof fn lemma_new_block_priority(ssid: Seq<char>, password: Seq<char>, n: nat)
    requires
        !contains_seq(ssid, priority_key()),
        !contains_seq(password, priority_key()),
    ensures
        first_digits(new_block(ssid, password, n), priority_key(), 0) == Some(decimal(n)),
{
    let nb = new_block(ssid, password, n);
    let key = priority_key();
    let d = decimal(n);
    lemma_block_index(ssid, password, n);
    crate::scan::lemma_decimal_value(n);
    let (o_mid, o_pass, o_pri, o_digits, o_tail) = block_offsets(ssid, password, d);
    let pos0 = o_pri + 4;
    assert forall|k: int| 0 <= k < 9 implies key[k] != '"' by {}
    assert forall|i: int| 0 <= i < pos0 implies !occurs_at(nb, key, i) by {
        if occurs_at(nb, key, i) {
            assert(nb.subrange(i, i + 9)[0] == key[0]);
            assert(nb[i] == 'p');
            if i < 18 {
                assert(nb[i] == block_head()[i]);
            } else if i < o_mid {
                if i + 9 <= o_mid {
                    lemma_occurrence_inside(nb, key, i, 18, o_mid, ssid);
                } else {
                    lemma_occurrence_covers(nb, key, i, o_mid);
                    assert(nb[o_mid] == block_mid()[0]);
                }
            } else if i < o_pass {
                assert(nb[i] == block_mid()[i - o_mid]);
                if i - o_mid == 18 {
                    assert(nb.subrange(i, i + 9)[1] == key[1]);
                    assert(nb[i + 1] == block_mid()[19]);
                }
            } else if i < o_pri {
                if i + 9 <= o_pri {
                    lemma_occurrence_inside(nb, key, i, o_pass, o_pri, password);
                } else {
                    lemma_occurrence_covers(nb, key, i, o_pri);
                    assert(nb[o_pri] == block_pri()[0]);
                }
            } else {
                assert(nb[i] == block_pri()[i - o_pri]);
            }
        }
    }
    crate::scan::lemma_first_digits_skip(nb, key, 0, pos0);
    assert(nb.subrange(pos0, pos0 + 9) =~= key) by {
        assert forall|k: int| 0 <= k < 9 implies #[trigger] nb.subrange(pos0, pos0 + 9)[k] == key[k] by {
            assert(nb[pos0 + k] == block_pri()[4 + k]);
        }
    }
    assert(nb[o_digits] == d[0]);
    assert(crate::chars::is_decimal_digit(nb[o_digits]));
    assert forall|k: int| o_digits <= k < o_tail implies crate::chars::is_decimal_digit(#[trigger] nb[k]) by {
        assert(nb[k] == d[k - o_digits]);
        assert(crate::chars::is_ascii_digit(d[k - o_digits]));
    }
    assert(nb[o_tail] == block_tail()[0]);
    crate::scan::lemma_digit_run_to(nb, o_digits, o_tail);
    assert(nb.subrange(o_digits, o_tail) =~= d);
}

/// A written block opens with `network={`, ends with its only `}` and is
/// longer than the opening, when neither the SSID nor the password holds `}`.
proof fn lemma_new_block_braces(ssid: Seq<char>, password: Seq<char>, n: nat)
    requires
        forall|k: int| 0 <= k < ssid.len() ==> ssid[k] != '}',
        forall|k: int| 0 <= k < password.len() ==> password[k] != '}',
    ensures
        ({
            let nb = new_block(ssid, password, n);
            &&& nb.len() > 10
            &&& nb.subrange(0, 9) == block_open()
            &&& nb[nb.len() - 1] == '}'
            &&& forall|j: int| 9 <= j < nb.len() - 1 ==> nb[j] != '}'
        }),
{
    let nb = new_block(ssid, password, n);
    let d = decimal(n);
    lemma_block_index(ssid, password, n);
    crate::scan::lemma_decimal_value(n);
    let (o_mid, o_pass, o_pri, o_digits, o_tail) = block_offsets(ssid, password, d);
    let last = o_tail + 2;
    assert(nb.subrange(0, 9) =~= block_open()) by {
        assert forall|k: int| 0 <= k < 9 implies #[trigger] nb.subrange(0, 9)[k] == block_open()[k] by {
            assert(nb[k] == block_head()[k]);
        }
    }
    assert forall|j: int| 9 <= j < last implies nb[j] != '}' by {
        if j < 18 {
            assert(nb[j] == block_head()[j]);
        } else if j < o_mid {
            assert(nb[j] == ssid[j - 18]);
        } else if j < o_pass {
            assert(nb[j] == block_mid()[j - o_mid]);
        } else if j < o_pri {
            assert(nb[j] == password[j - o_pass]);
        } else if j < o_digits {
            assert(nb[j] == block_pri()[j - o_pri]);
        } else if j < o_tail {
            assert(nb[j] == d[j - o_digits]);
            assert(crate::chars::is_ascii_digit(d[j - o_digits]));
        } else {
            assert(nb[j] == block_tail()[j - o_tail]);
        }
    }
    assert(nb[last] == block_tail()[2]);
}

/// Where a written block starts in a text, the block matched there is the
/// whole rest of the text.
proof fn lemma_new_block_matched_at(s: Seq<char>, t: int, ssid: Seq<char>, password: Seq<char>, n: nat)
    requires
        forall|k: int| 0 <= k < ssid.len() ==> ssid[k] != '}',
        forall|k: int| 0 <= k < password.len() ==> password[k] != '}',
        0 <= t <= s.len(),
        s.subrange(t, s.len() as int) == new_block(ssid, password, n),
    ensures
        blocks_from(s, t) == seq![new_block(ssid, password, n)],
{
    let nb = new_block(ssid, password, n);
    lemma_new_block_braces(ssid, password, n);
    let len = s.len() as int;
    assert(len == t + nb.len());
    assert forall|k: int| 0 <= k < nb.len() implies #[trigger] s[t + k] == nb[k] by {
        assert(s.subrange(t, len)[k] == s[t + k]);
    }
    assert(s.subrange(t, t + 9) =~= block_open()) by {
        assert forall|k: int| 0 <= k < 9 implies #[trigger] s.subrange(t, t + 9)[k] == block_open()[k] by {
            assert(s[t + k] == nb[k]);
            assert(nb.subrange(0, 9)[k] == nb[k]);
        }
    }
    assert(occurs_at(s, block_open(), t));
    assert forall|j: int| t + 9 <= j < len - 1 implies s[j] != '}' by {
        assert(s[t + (j - t)] == nb[j - t]);
    }
    assert(s[t + (nb.len() - 1)] == nb[nb.len() - 1]);
    crate::scan::lemma_first_index_at(s, '}', t + 9, len - 1);
    assert(block_end_at(s, t) == Some(len));
    assert(blocks_from(s, len) =~= Seq::<Seq<char>>::empty());
    assert(seq![s.subrange(t, len)] + Seq::<Seq<char>>::empty() =~= seq![nb]);
}

proof fn lemma_new_block_is_one_block(ssid: Seq<char>, password: Seq<char>, n: nat)
    requires
        forall|k: int| 0 <= k < ssid.len() ==> ssid[k] != '}',
        forall|k: int| 0 <= k < password.len() ==> password[k] != '}',
    ensures
        network_blocks_of(new_block(ssid, password, n)) == seq![new_block(ssid, password, n)],
{
    let nb = new_block(ssid, password, n);
    assert(nb.subrange(0, nb.len() as int) =~= nb);
    lemma_new_block_matched_at(nb, 0, ssid, password, n);
}

/// Every `network={` in the text has a `}` after it within the text.
pub open spec fn opens_closed(t: Seq<char>) -> bool {
    forall|p: int|
        #[trigger] occurs_at(t, block_open(), p) ==> exists|q: int| p + 9 <= q < t.len() && t[q] == '}'
}

/// When no block matched before `t` reaches past `t`, the scan from `pos`
/// ends as the scan from `t` does.
proof fn lemma_blocks_reach(s: Seq<char>, pos: int, t: int)
    requires
        0 <= pos <= t <= s.len(),
        forall|p: int| pos <= p < t ==> (#[trigger] block_end_at(s, p) matches Some(e) ==> e <= t),
        blocks_from(s, t).len() > 0,
    ensures
        blocks_from(s, pos).len() > 0,
        blocks_from(s, pos).last() == blocks_from(s, t).last(),
    decreases t - pos,
{
    if pos < t {
        match block_end_at(s, pos) {
            Some(e) => {
                lemma_blocks_reach(s, e, t);
                let b = blocks_from(s, e);
                assert(blocks_from(s, pos) == seq![s.subrange(pos, e)] + b);
                assert((seq![s.subrange(pos, e)] + b).last() == b.last());
            },
            None => {
                lemma_blocks_reach(s, pos + 1, t);
            },
        }
    }
}

/// The text is not empty and ends with `}`.
pub open spec fn ends_with_brace(b: Seq<char>) -> bool {
    b.len() > 0 && b[b.len() - 1] == '}'
}

/// Each block matched in a text ends with `}`.
proof fn lemma_blocks_end_closed(s: Seq<char>, pos: int)
    ensures
        forall|i: int| 0 <= i < blocks_from(s, pos).len() ==> ends_with_brace(#[trigger] blocks_from(s, pos)[i]),
    decreases s.len() - pos,
{
    if 0 <= pos < s.len() {
        match block_end_at(s, pos) {
            Some(e) => {
                lemma_blocks_end_closed(s, e);
                crate::scan::lemma_first_index_of(s, '}', pos + 9);
                let b = blocks_from(s, e);
                let sub = s.subrange(pos, e);
                match first_index_of(s, '}', pos + 9) {
                    Some(q) => {
                        assert(e == q + 1);
                        assert(sub[sub.len() - 1] == s[q]);
                    },
                    None => {},
                }
                assert(ends_with_brace(sub));
                let all = blocks_from(s, pos);
                assert(all == seq![sub] + b);
                assert forall|i: int| 0 <= i < all.len() implies ends_with_brace(#[trigger] all[i]) by {
                    if i > 0 {
                        assert(all[i] == b[i - 1]);
                    } else {
                        assert(all[0] == sub);
                    }
                }
            },
            None => {
                lemma_blocks_end_closed(s, pos + 1);
                assert(blocks_from(s, pos) == blocks_from(s, pos + 1));
            },
        }
    } else {
        assert(blocks_from(s, pos).len() == 0);
    }
}

/// The kept blocks are among the blocks, so they end with `}` too.
proof fn lemma_kept_end_closed(blocks: Seq<Seq<char>>, ssid: Seq<char>)
    requires
        forall|i: int| 0 <= i < blocks.len() ==> ends_with_brace(#[trigger] blocks[i]),
    ensures
        forall|i: int|
            0 <= i < kept_blocks(blocks, ssid).len() ==> ends_with_brace(#[trigger] kept_blocks(blocks, ssid)[i]),
    decreases blocks.len(),
{
    if blocks.len() > 0 {
        let d = blocks.drop_last();
        assert forall|i: int| 0 <= i < d.len() implies ends_with_brace(#[trigger] d[i]) by {
            assert(d[i] == blocks[i]);
        }
        lemma_kept_end_closed(d, ssid);
        let k = kept_blocks(d, ssid);
        let kb = kept_blocks(blocks, ssid);
        assert(ends_with_brace(blocks[blocks.len() - 1]));
        assert forall|i: int| 0 <= i < kb.len() implies ends_with_brace(#[trigger] kb[i]) by {
            if i < k.len() {
                assert(kb[i] == k[i]);
            } else {
                assert(kb[i] == blocks.last());
            }
        }
    }
}

/// No block matched before `t` reaches past `t` when the text holds `}\n\t`
/// just before `t`.
proof fn lemma_no_block_past_close(out: Seq<char>, t: int)
    requires
        3 <= t <= out.len(),
        out[t - 3] == '}',
        out[t - 2] == '\n',
        out[t - 1] == '\t',
    ensures
        forall|p: int| 0 <= p < t ==> (#[trigger] block_end_at(out, p) matches Some(e) ==> e <= t),
{
    let c = t - 3;
    assert forall|k: int| 0 <= k < 9 implies block_open()[k] != '}' && block_open()[k] != '\n' && block_open()[k]
        != '\t' by {}
    assert forall|p: int| 0 <= p < t implies (#[trigger] block_end_at(out, p) matches Some(e) ==> e <= t) by {
        if let Some(e) = block_end_at(out, p) {
            crate::scan::lemma_first_index_of(out, '}', p + 9);
            if p + 9 > c {
                if p <= c {
                    lemma_occurrence_covers(out, block_open(), p, c);
                } else {
                    lemma_occurrence_covers(out, block_open(), p, p);
                }
            }
        }
    }
}

/// No block matched before `t` reaches past `t` when the text is `pre`,
/// whose every `network={` is closed, then `\n\t` up to `t`.
proof fn lemma_no_block_past_prefix(out: Seq<char>, pre: Seq<char>, t: int)
    requires
        t == pre.len() + 2,
        t <= out.len(),
        forall|k: int| 0 <= k < pre.len() ==> #[trigger] out[k] == pre[k],
        out[t - 2] == '\n',
        out[t - 1] == '\t',
        opens_closed(pre),
    ensures
        forall|p: int| 0 <= p < t ==> (#[trigger] block_end_at(out, p) matches Some(e) ==> e <= t),
{
    let m = pre.len() as int;
    assert forall|k: int| 0 <= k < 9 implies block_open()[k] != '\n' && block_open()[k] != '\t' by {}
    assert forall|k: int| 0 <= k < m implies #[trigger] out[k] == pre[k - 0] by {
        assert(out[k] == pre[k]);
    }
    assert forall|p: int| 0 <= p < t implies (#[trigger] block_end_at(out, p) matches Some(e) ==> e <= t) by {
        if let Some(e) = block_end_at(out, p) {
            crate::scan::lemma_first_index_of(out, '}', p + 9);
            if p >= m {
                lemma_occurrence_covers(out, block_open(), p, p);
            } else if p + 9 > m {
                lemma_occurrence_covers(out, block_open(), p, m);
            } else {
                lemma_occurrence_inside(out, block_open(), p, 0, m, pre);
                assert(occurs_at(pre, block_open(), p - 0));
                let q = choose|q: int| p + 9 <= q < pre.len() && pre[q] == '}';
                assert(out[q] == '}');
            }
        }
    }
}

/// After a rewrite, the last network block read back from the written
/// configuration is the block of the new network, with the priority one
/// above the highest one read before. This holds when neither the SSID nor
/// the password holds `}`, and, where no earlier block is kept, every
/// `network={` left in the text outside the blocks is closed within it.
pub proof fn law_rewrite_ends_with_new_block(conf: Seq<char>, ssid: Seq<char>, password: Seq<char>)
    requires
        forall|k: int| 0 <= k < ssid.len() ==> ssid[k] != '}',
        forall|k: int| 0 <= k < password.len() ==> password[k] != '}',
        kept_blocks(network_blocks_of(conf), ssid).len() > 0 || opens_closed(wpa_prefix(conf)),
    ensures
        network_blocks_of(wpa_conf_text(conf, ssid, password)).len() > 0,
        network_blocks_of(wpa_conf_text(conf, ssid, password)).last() == new_block(
            ssid,
            password,
            max_priority(network_blocks_of(conf)) as nat + 1,
        ),
{
    let blocks = network_blocks_of(conf);
    let n = max_priority(blocks) as nat + 1;
    let nb = new_block(ssid, password, n);
    let pre = wpa_prefix(conf);
    let kept = kept_blocks(blocks, ssid);
    let sep = block_sep();
    let out = wpa_conf_text(conf, ssid, password);
    if kept.len() == 0 {
        let head = pre + sep;
        assert(kept.push(nb) =~= seq![nb]);
        assert(out =~= head + nb);
        let t = head.len() as int;
        assert(out.subrange(t, out.len() as int) =~= nb);
        lemma_new_block_matched_at(out, t, ssid, password, n);
        assert forall|k: int| 0 <= k < pre.len() implies #[trigger] out[k] == pre[k] by {
            assert(out[k] == head[k]);
        }
        assert(out[t - 2] == head[t - 2]);
        assert(out[t - 1] == head[t - 1]);
        lemma_no_block_past_prefix(out, pre, t);
        lemma_blocks_reach(out, 0, t);
    } else {
        let jk = join(kept, sep);
        let head = pre + sep + jk + sep;
        assert(kept.push(nb).drop_last() =~= kept);
        assert(out =~= head + nb);
        let t = head.len() as int;
        assert(out.subrange(t, out.len() as int) =~= nb);
        lemma_new_block_matched_at(out, t, ssid, password, n);
        lemma_blocks_end_closed(conf, 0);
        lemma_kept_end_closed(blocks, ssid);
        assert(ends_with_brace(kept[kept.len() - 1]));
        assert(jk.len() > 0 && jk[jk.len() - 1] == '}');
        assert(out[t - 3] == head[t - 3]);
        assert(out[t - 2] == head[t - 2]);
        assert(out[t - 1] == head[t - 1]);
        lemma_no_block_past_close(out, t);
        lemma_blocks_reach(out, 0, t);
    }
}

/// A block written for a new network reads back as that network: it is a
/// single network block, its SSID is the one written and its priority the
/// one given. This holds when the SSID holds no `"`, and neither the SSID
/// nor the password holds `}` or `priority=`.
pub proof fn law_new_block_reads_back(ssid: Seq<char>, password: Seq<char>, priority: u32)
    requires
        forall|k: int| 0 <= k < ssid.len() ==> ssid[k] != '"' && ssid[k] != '}',
        forall|k: int| 0 <= k < password.len() ==> password[k] != '}',
        !contains_seq(ssid, priority_key()),
        !contains_seq(password, priority_key()),
    ensures
        network_blocks_of(new_block(ssid, password, priority as nat)) == seq![
            new_block(ssid, password, priority as nat),
        ],
        block_ssid_text(new_block(ssid, password, priority as nat)) == ssid,
        block_priority_value(new_block(ssid, password, priority as nat)) == Some(priority),
{
    let n = priority as nat;
    lemma_new_block_is_one_block(ssid, password, n);
    lemma_new_block_ssid(ssid, password, n);
    lemma_new_block_priority(ssid, password, n);
    crate::scan::lemma_decimal_value(n);
    let d = decimal(n);
    assert(crate::chars::is_ascii_digit(d[0]));
    assert(crate::scan::all_ascii_digits(d));
}

/// The highest priority among blocks is at least the priority of each block
/// that has one, and is either 0 or the priority of one of them.
pub proof fn law_max_priority_is_highest(blocks: Seq<Seq<char>>)
    ensures
        forall|i: int|
            0 <= i < blocks.len() && #[trigger] block_priority_value(blocks[i]) is Some ==> block_priority_value(
                blocks[i],
            )->0 <= max_priority(blocks),
        max_priority(blocks) == 0 || exists|i: int|
            0 <= i < blocks.len() && #[trigger] block_priority_value(blocks[i]) == Some(max_priority(blocks)),
    decreases blocks.len(),
{
    if blocks.len() > 0 {
        let init = blocks.drop_last();
        law_max_priority_is_highest(init);
        let n = init.len() as int;
        assert(blocks.last() == blocks[n]);
        assert forall|i: int| 0 <= i < n implies #[trigger] blocks[i] == init[i] by {}
        if max_priority(blocks) != 0 && max_priority(blocks) != max_priority(init) {
            assert(block_priority_value(blocks[n]) == Some(max_priority(blocks)));
        } else if max_priority(init) != 0 {
            let i = choose|i: int| 0 <= i < init.len() && #[trigger] block_priority_value(init[i]) == Some(max_priority(init));
            assert(block_priority_value(blocks[i]) == Some(max_priority(blocks)));
        }
    }
}

/// After a rewrite, the new network is the one preferred: the last block
/// read back from the written configuration names the new SSID, and its
/// priority is above the priority of every block of the old configuration,
/// exactly one above the highest of them (or 1 when none has one). This
/// holds when the SSID holds no `"`, neither the SSID nor the password holds
/// `}` or `priority=`, no old priority is `u32::MAX`, and, where no old
/// block is kept, every `network={` left outside the blocks is closed.
pub proof fn law_rewrite_prefers_new_network(conf: Seq<char>, ssid: Seq<char>, password: Seq<char>)
    requires
        forall|k: int| 0 <= k < ssid.len() ==> ssid[k] != '"' && ssid[k] != '}',
        forall|k: int| 0 <= k < password.len() ==> password[k] != '}',
        !contains_seq(ssid, priority_key()),
        !contains_seq(password, priority_key()),
        kept_blocks(network_blocks_of(conf), ssid).len() > 0 || opens_closed(wpa_prefix(conf)),
        forall|i: int|
            0 <= i < network_blocks_of(conf).len() ==> #[trigger] block_priority_value(network_blocks_of(conf)[i])
                != Some(u32::MAX),
    ensures
        ({
            let old_blocks = network_blocks_of(conf);
            let out = network_blocks_of(wpa_conf_text(conf, ssid, password));
            &&& out.len() > 0
            &&& block_ssid_text(out.last()) == ssid
            &&& block_priority_value(out.last()) is Some
            &&& forall|i: int|
                0 <= i < old_blocks.len() && #[trigger] block_priority_value(old_blocks[i]) is Some
                    ==> block_priority_value(old_blocks[i])->0 < block_priority_value(out.last())->0
            &&& block_priority_value(out.last())->0 == 1 || exists|i: int|
                0 <= i < old_blocks.len() && #[trigger] block_priority_value(old_blocks[i]) == Some(
                    (block_priority_value(out.last())->0 - 1) as u32,
                )
        }),
{
    let blocks = network_blocks_of(conf);
    law_max_priority_is_highest(blocks);
    let m = max_priority(blocks);
    if m != 0 {
        let i = choose|i: int| 0 <= i < blocks.len() && #[trigger] block_priority_value(blocks[i]) == Some(m);
        assert(block_priority_value(blocks[i]) != Some(u32::MAX));
    }
    assert(m < u32::MAX);
    law_rewrite_ends_with_new_block(conf, ssid, password);
    law_new_block_reads_back(ssid, password, (m + 1) as u32);
}

proof fn lemma_first_line_at(lines: Seq<Seq<char>>, pat: Seq<char>, i: int)
    requires
        0 <= i < lines.len(),
        contains_seq(lines[i], pat),
        forall|j: int| 0 <= j < i ==> !contains_seq(#[trigger] lines[j], pat),
    ensures
        first_line_with(lines, pat) == Some(lines[i]),
    decreases i,
{
    if i > 0 {
        let rest = lines.drop_first();
        assert forall|j: int| 0 <= j < i - 1 implies !contains_seq(#[trigger] rest[j], pat) by {
            assert(rest[j] == lines[j + 1]);
        }
        assert(!contains_seq(lines[0], pat));
        lemma_first_line_at(rest, pat, i - 1);
    }
}

proof fn lemma_no_line_with(lines: Seq<Seq<char>>, pat: Seq<char>)
    requires
        forall|j: int| 0 <= j < lines.len() ==> !contains_seq(#[trigger] lines[j], pat),
    ensures
        first_line_with(lines, pat) is None,
    decreases lines.len(),
{
    if lines.len() > 0 {
        let rest = lines.drop_first();
        assert forall|j: int| 0 <= j < rest.len() implies !contains_seq(#[trigger] rest[j], pat) by {
            assert(rest[j] == lines[j + 1]);
        }
        assert(!contains_seq(lines[0], pat));
        lemma_no_line_with(rest, pat);
    }
}

/// How the service reads `nmcli dev status`: with no line naming `wlan0`,
/// wlan0 is absent; otherwise the first line naming it decides: wlan0 is
/// managed by NetworkManager exactly when that line says `connected`, so a
/// `disconnected` wlan0 is managed too, and it is unavailable exactly when
/// the line says `unavailable`.
pub proof fn law_nm_reading(out: Seq<char>, i: int)
    ensures
        (forall|j: int|
            0 <= j < lines_of(out).len() ==> !contains_seq(#[trigger] lines_of(out)[j], seq!['w', 'l', 'a', 'n', '0']))
            ==> nm_wlan0_of(out) is Absent,
        0 <= i < lines_of(out).len() && contains_seq(lines_of(out)[i], seq!['w', 'l', 'a', 'n', '0']) && (forall|j: int|
            0 <= j < i ==> !contains_seq(#[trigger] lines_of(out)[j], seq!['w', 'l', 'a', 'n', '0'])) ==> {
            let l = lines_of(out)[i];
            &&& nm_wlan0_of(out) is Listed
            &&& nm_wlan0_of(out)->managed == contains_seq(l, seq!['c', 'o', 'n', 'n', 'e', 'c', 't', 'e', 'd'])
            &&& contains_seq(l, seq!['d', 'i', 's', 'c', 'o', 'n', 'n', 'e', 'c', 't', 'e', 'd']) ==> nm_wlan0_of(out)->managed
            &&& nm_wlan0_of(out)->unavailable == contains_seq(
                l,
                seq!['u', 'n', 'a', 'v', 'a', 'i', 'l', 'a', 'b', 'l', 'e'],
            )
        },
{
    let ls = lines_of(out);
    let w = seq!['w', 'l', 'a', 'n', '0'];
    assert(w =~= wlan0_word());
    assert(seq!['c', 'o', 'n', 'n', 'e', 'c', 't', 'e', 'd'] =~= connected_word());
    assert(seq!['d', 'i', 's', 'c', 'o', 'n', 'n', 'e', 'c', 't', 'e', 'd'] =~= disconnected_word());
    assert(seq!['u', 'n', 'a', 'v', 'a', 'i', 'l', 'a', 'b', 'l', 'e'] =~= unavailable_word());
    if forall|j: int| 0 <= j < ls.len() ==> !contains_seq(#[trigger] ls[j], w) {
        lemma_no_line_with(ls, w);
    }
    if 0 <= i < ls.len() && contains_seq(ls[i], w) && (forall|j: int| 0 <= j < i ==> !contains_seq(#[trigger] ls[j], w)) {
        lemma_first_line_at(ls, w, i);
        let l = ls[i];
        if contains_seq(l, disconnected_word()) {
            let k = choose|k: int| occurs_at(l, disconnected_word(), k);
            assert(disconnected_word().len() == 12);
            assert(l.subrange(k, k + 12) == disconnected_word());
            assert(l.subrange(k + 3, k + 12) =~= l.subrange(k, k + 12).subrange(3, 12));
            assert(disconnected_word().subrange(3, 12) =~= connected_word());
            assert(occurs_at(l, connected_word(), k + 3));
        }
    }
}

/// An active line opening the `wlan0` stanza.
pub open spec fn opens_wlan0(t: Seq<char>) -> bool {
    active_line(t) && contains_seq(t, interface_wlan0())
}

/// An active line opening a stanza of another interface.
pub open spec fn opens_other(t: Seq<char>) -> bool {
    active_line(t) && contains_seq(t, interface_any()) && !contains_seq(t, interface_wlan0())
}

/// An active `nohook wpa_supplicant` line.
pub open spec fn nohook_line(t: Seq<char>) -> bool {
    active_line(t) && contains_seq(t, nohook_wpa())
}

/// Line `k` lies in the `wlan0` stanza opened at line `j`: no other
/// interface's stanza opens after `j` up to and including `k`.
pub open spec fn in_wlan0_stanza(ls: Seq<Seq<char>>, j: int, k: int) -> bool {
    &&& 0 <= j <= k < ls.len()
    &&& opens_wlan0(trim(ls[j]))
    &&& forall|m: int| j < m <= k ==> !opens_other(#[trigger] trim(ls[m]))
}

proof fn lemma_scan_meaning(ls: Seq<Seq<char>>, n: int)
    requires
        0 <= n <= ls.len(),
    ensures
        wlan0_scan(ls.take(n)).0 <==> (n > 0 && exists|j: int| #[trigger] in_wlan0_stanza(ls, j, n - 1)),
        wlan0_scan(ls.take(n)).1 <==> !exists|j: int, k: int|
            k < n && #[trigger] in_wlan0_stanza(ls, j, k) && nohook_line(trim(ls[k])),
    decreases n,
{
    if n == 0 {
        assert(ls.take(0) =~= Seq::<Seq<char>>::empty());
    } else {
        lemma_scan_meaning(ls, n - 1);
        assert(ls.take(n).drop_last() =~= ls.take(n - 1));
        assert(ls.take(n).last() == ls[n - 1]);
        let st = wlan0_scan(ls.take(n - 1));
        let t = trim(ls[n - 1]);
        let r = wlan0_scan(ls.take(n));
        assert(r == wlan0_step(st, ls[n - 1]));
        // the stanza state
        if r.0 {
            if opens_wlan0(t) {
                assert(in_wlan0_stanza(ls, n - 1, n - 1));
            } else {
                let j = choose|j: int| #[trigger] in_wlan0_stanza(ls, j, n - 2);
                assert(!opens_other(t));
                assert(in_wlan0_stanza(ls, j, n - 1));
            }
        }
        if exists|j: int| #[trigger] in_wlan0_stanza(ls, j, n - 1) {
            let j = choose|j: int| #[trigger] in_wlan0_stanza(ls, j, n - 1);
            if j < n - 1 {
                assert(in_wlan0_stanza(ls, j, n - 2));
                assert(!opens_other(t));
            }
        }
        // the verdict
        if exists|j: int, k: int| k < n && #[trigger] in_wlan0_stanza(ls, j, k) && nohook_line(trim(ls[k])) {
            let (j, k) = choose|j: int, k: int| k < n && #[trigger] in_wlan0_stanza(ls, j, k) && nohook_line(trim(ls[k]));
            if k == n - 1 {
                assert(r.0);
            }
        }
        if !r.1 {
            if st.1 {
                assert(r.0 && nohook_line(t));
                let j = choose|j: int| #[trigger] in_wlan0_stanza(ls, j, n - 1);
                assert(in_wlan0_stanza(ls, j, n - 1) && nohook_line(trim(ls[n - 1])));
            } else {
                let (j, k) = choose|j: int, k: int| k < n - 1 && #[trigger] in_wlan0_stanza(ls, j, k) && nohook_line(trim(ls[k]));
                assert(in_wlan0_stanza(ls, j, k));
            }
        }
    }
}

/// The interfaces file leaves wlan0 to wpa_supplicant exactly when no
/// active `nohook wpa_supplicant` line lies in a `wlan0` stanza: inside the
/// stanza opened by an active `interface wlan0` line, before an active line
/// opens another interface's stanza. So once such a line is seen, later
/// lines never make the verdict good again.
pub proof fn law_wlan0_nohook(data: Seq<char>)
    ensures
        !interfaces_ok(data) <==> exists|j: int, k: int|
            #[trigger] in_wlan0_stanza(lines_of(data), j, k) && nohook_line(trim(lines_of(data)[k])),
{
    let ls = lines_of(data);
    lemma_scan_meaning(ls, ls.len() as int);
    assert(ls.take(ls.len() as int) =~= ls);
}

/// The text is a network block as `network=\{[^}]+\}` matches it.
pub open spec fn is_network_block(b: Seq<char>) -> bool {
    &&& b.len() > 10
    &&& b.take(9) == seq!['n', 'e', 't', 'w', 'o', 'r', 'k', '=', '{']
    &&& b[b.len() - 1] == '}'
    &&& forall|m: int| 9 <= m < b.len() - 1 ==> b[m] != '}'
}

proof fn lemma_blocks_shape(s: Seq<char>, pos: int)
    ensures
        forall|i: int|
            0 <= i < blocks_from(s, pos).len() ==> is_network_block(#[trigger] blocks_from(s, pos)[i])
                && contains_seq(s, blocks_from(s, pos)[i]),
    decreases s.len() - pos,
{
    if 0 <= pos < s.len() {
        match block_end_at(s, pos) {
            Some(e) => {
                lemma_blocks_shape(s, e);
                crate::scan::lemma_first_index_of(s, '}', pos + 9);
                let sub = s.subrange(pos, e);
                let q = e - 1;
                assert(first_index_of(s, '}', pos + 9) == Some(q));
                assert(sub.take(9) =~= block_open()) by {
                    assert(s.subrange(pos, pos + 9) == block_open());
                    assert forall|m: int| 0 <= m < 9 implies #[trigger] sub.take(9)[m] == block_open()[m] by {
                        assert(sub.take(9)[m] == s[pos + m]);
                        assert(s.subrange(pos, pos + 9)[m] == s[pos + m]);
                    }
                }
                assert forall|m: int| 9 <= m < sub.len() - 1 implies sub[m] != '}' by {
                    assert(sub[m] == s[pos + m]);
                }
                assert(sub[sub.len() - 1] == s[q]);
                assert(occurs_at(s, sub, pos)) by {
                    assert(s.subrange(pos, pos + sub.len()) =~= sub);
                }
                let all = blocks_from(s, pos);
                let rest = blocks_from(s, e);
                assert(all == seq![sub] + rest);
                assert forall|i: int| 0 <= i < all.len() implies is_network_block(#[trigger] all[i]) && contains_seq(s, all[i]) by {
                    if i > 0 {
                        assert(all[i] == rest[i - 1]);
                    } else {
                        assert(all[0] == sub);
                    }
                }
            },
            None => {
                lemma_blocks_shape(s, pos + 1);
                assert(blocks_from(s, pos) == blocks_from(s, pos + 1));
            },
        }
    } else {
        assert(blocks_from(s, pos).len() == 0);
    }
}

/// Every network block read from a configuration is a stretch of it that
/// starts with `network={`, ends at the first `}` after that, and holds at
/// least one character in between.
pub proof fn law_network_blocks_shape(conf: Seq<char>)
    ensures
        forall|i: int|
            0 <= i < network_blocks_of(conf).len() ==> is_network_block(#[trigger] network_blocks_of(conf)[i])
                && contains_seq(conf, network_blocks_of(conf)[i]),
{
    lemma_blocks_shape(conf, 0);
}

/// The SSID of a block is the text between its first `ssid="` and the next
/// `"`: for `p ssid="x" q` where `x` holds no `"` and no `ssid="` begins
/// inside `p`, it is `x`; a block without `ssid="` has the empty SSID.
pub proof fn law_block_ssid_is_quoted(p: Seq<char>, x: Seq<char>, q: Seq<char>, other: Seq<char>)
    requires
        forall|k: int| 0 <= k < x.len() ==> x[k] != '"',
        forall|i: int| 0 <= i < p.len() ==> !occurs_at(p + ssid_key(), ssid_key(), i),
    ensures
        block_ssid_text(p + ssid_key() + x + seq!['"'] + q) == x,
        !contains_seq(other, ssid_key()) ==> block_ssid_text(other) == Seq::<char>::empty(),
{
    let key = ssid_key();
    let s = p + key + x + seq!['"'] + q;
    let n = p.len() as int;
    assert forall|i: int| 0 <= i < n implies !occurs_at(s, key, i) by {
        if occurs_at(s, key, i) {
            let pk = p + key;
            assert forall|m: int| 0 <= m < n + 6 implies #[trigger] s[m] == pk[m] by {}
            assert(s.subrange(i, i + 6) =~= pk.subrange(i, i + 6));
            assert(occurs_at(pk, key, i));
        }
    }
    crate::scan::lemma_first_quoted_skip(s, key, 0, n);
    assert(s.subrange(n, n + 6) =~= key);
    assert forall|j: int| n + 6 <= j < n + 6 + x.len() implies s[j] != '"' by {
        assert(s[j] == x[j - n - 6]);
    }
    assert(s[n + 6 + x.len()] == '"');
    crate::scan::lemma_first_index_at(s, '"', n + 6, n + 6 + x.len());
    assert(s.subrange(n + 6, n + 6 + x.len()) =~= x);
    if !contains_seq(other, key) {
        let len = other.len() as int;
        assert forall|i: int| 0 <= i < len implies !occurs_at(other, key, i) by {}
        crate::scan::lemma_first_quoted_skip(other, key, 0, len);
        assert(!occurs_at(other, key, len));
        assert(first_quoted(other, key, len + 1) is None);
    }
}

/// The blocks kept by a rewrite are, in their order, exactly the old blocks
/// whose SSID differs from the new network's.
pub proof fn law_kept_blocks_drop_same_ssid(blocks: Seq<Seq<char>>, ssid: Seq<char>)
    ensures
        kept_blocks(blocks, ssid) == blocks.filter(|b: Seq<char>| block_ssid_text(b) != ssid),
    decreases blocks.len(),
{
    reveal(Seq::filter);
    if blocks.len() > 0 {
        law_kept_blocks_drop_same_ssid(blocks.drop_last(), ssid);
    }
}

} // verus!
