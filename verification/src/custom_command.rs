//! Custom commands run on request over the chunked command characteristic.
use vstd::prelude::*;
use crate::config::CommandItem;
use crate::protocol::{InputRejection, fields_of, concat_tag, lemma_tags, CONCAT_TAG, chunk_message, views_of, chunks_of, framed_bytes, CHUNK_SIZE, packet_text};
use crate::text::{
    chars_of, string_from_chars, split_all, split_exec, chars_eq, to_uppercase, unicode_upper,
    ascii_upper_char, is_ascii_chars, lemma_split_nonempty, from_utf8_lossy,
};
use crate::uuid::{guid4, guid4_text, custom_uuid_str, CUSTOM_COMMAND_LABEL_PREFIX, hex_value};
use crate::text::{digit_char, radix_digits, lower_hex, contains_seq, occurs_at};
use crate::protocol::{lemma_split_prefix, lemma_split_single};

verus! {

/// A configured command with the UUID text of its label characteristic.
#[derive(Clone)]
pub struct CommandEntry {
    pub uuid_str: String,
    pub command: String,
}

pub open spec fn command_label_prefix() -> Seq<char> {
    seq!['F', 'D', '2', 'B', 'C', 'C', 'C', 'C']
}

/// The entries for the configured commands: the `i`-th gets the UUID text
/// `CUSTOM_COMMAND_LABEL_PREFIX + guid4(i)`.
pub fn command_entries(items: &Vec<CommandItem>) -> (r: Vec<CommandEntry>)
    ensures
        r@.len() == items@.len(),
        forall|i: int|
            0 <= i < r@.len() ==> {
                &&& #[trigger] r@[i].uuid_str@ == command_label_prefix() + guid4_text(i as nat)
                &&& r@[i].command@ == items@[i].command@
            },
{
    let mut r: Vec<CommandEntry> = Vec::new();
    let mut i: usize = 0;
    proof {
        reveal_strlit("FD2BCCCC");
    }
    while i < items.len()
        invariant
            i <= items@.len(),
            r@.len() == i,
            CUSTOM_COMMAND_LABEL_PREFIX@ == command_label_prefix(),
            forall|j: int|
                0 <= j < i ==> {
                    &&& #[trigger] r@[j].uuid_str@ == command_label_prefix() + guid4_text(j as nat)
                    &&& r@[j].command@ == items@[j].command@
                },
        decreases items@.len() - i,
    {
        let suffix = guid4(i);
        let uuid_str = custom_uuid_str(CUSTOM_COMMAND_LABEL_PREFIX, suffix.as_str());
        let command = items[i].command.clone();
        r.push(CommandEntry { uuid_str, command });
        i = i + 1;
    }
    r
}

/// Text upper-cased as `str::to_uppercase` does it: letter by letter for
/// ASCII text.
pub open spec fn upper_text(s: Seq<char>) -> Seq<char> {
    if is_ascii_chars(s) {
        s.map_values(|c: char| ascii_upper_char(c))
    } else {
        unicode_upper(s)
    }
}

/// The UUID suffix a request names: the text after the last '-' of the
/// second field, upper-cased.
pub open spec fn requested_uuid(field: Seq<char>) -> Seq<char> {
    upper_text(split_all(field, seq!['-']).last())
}

/// Whether an entry's UUID text names the requested suffix: the whole
/// upper-cased text, or its part after the 8-character prefix, equals it.
pub open spec fn entry_matches(uuid_str: Seq<char>, requested: Seq<char>) -> bool {
    let up = upper_text(uuid_str);
    up == requested || (up.len() >= 8 && up.skip(8) == requested)
}

/// The command of the first entry matching the requested suffix.
pub open spec fn lookup_command(entries: Seq<CommandEntry>, requested: Seq<char>) -> Option<Seq<char>>
    decreases entries.len(),
{
    if entries.len() == 0 {
        None
    } else if entry_matches(entries[0].uuid_str@, requested) {
        Some(entries[0].command@)
    } else {
        lookup_command(entries.drop_first(), requested)
    }
}

/// What a complete command-input message asks for.
pub enum CommandRequest {
    /// The message was refused.
    Rejected(InputRejection),
    /// No configured command has the requested UUID.
    NotFound,
    /// Run this shell command.
    Run(String),
}

impl CommandRequest {
    /// The first notice sent for the request.
    pub fn notice(&self) -> (s: String)
        ensures
            *self matches CommandRequest::Rejected(why) ==> (why is Syntax ==> s@ == "Invalid syntax."@)
                && (why is Key ==> s@ == "Invalid key."@),
            *self is NotFound ==> s@ == "Command not found."@,
            *self is Run ==> s@ == "exec done.\n"@,
    {
        match self {
            CommandRequest::Rejected(why) => why.notice(),
            CommandRequest::NotFound => String::from_str("Command not found."),
            CommandRequest::Run(_) => String::from_str("exec done.\n"),
        }
    }
}

/// Whether the entry's UUID text names the requested suffix.
fn entry_matches_exec(e: &CommandEntry, requested: &Vec<char>) -> (r: bool)
    ensures
        r == entry_matches(e.uuid_str@, requested@),
{
    let upper = to_uppercase(e.uuid_str.as_str());
    let up = chars_of(upper.as_str());
    if chars_eq(up.as_slice(), requested.as_slice()) {
        return true;
    }
    if up.len() < 8 {
        return false;
    }
    let mut tail: Vec<char> = Vec::new();
    let mut k: usize = 8;
    while k < up.len()
        invariant
            8 <= k <= up@.len(),
            tail@ == up@.subrange(8, k as int),
        decreases up@.len() - k,
    {
        tail.push(up[k]);
        assert(up@.subrange(8, k + 1) == up@.subrange(8, k as int).push(up@[k as int]));
        k = k + 1;
    }
    assert(tail@ == up@.skip(8));
    chars_eq(tail.as_slice(), requested.as_slice())
}

/// The command of the first entry whose UUID matches the requested suffix.
pub fn find_command(entries: &Vec<CommandEntry>, requested: &Vec<char>) -> (r: Option<String>)
    ensures
        r matches Some(c) ==> lookup_command(entries@, requested@) == Some(c@),
        r is None ==> lookup_command(entries@, requested@) is None,
{
    let mut i: usize = 0;
    assert(entries@.skip(0) =~= entries@);
    while i < entries.len()
        invariant
            i <= entries@.len(),
            lookup_command(entries@, requested@) == lookup_command(entries@.skip(i as int), requested@),
        decreases entries@.len() - i,
    {
        let ghost rest = entries@.skip(i as int);
        assert(rest[0] == entries@[i as int]);
        if entry_matches_exec(&entries[i], requested) {
            return Some(entries[i].command.clone());
        }
        assert(rest.drop_first() =~= entries@.skip(i + 1));
        i = i + 1;
    }
    None
}

/// Resolves a complete `key%&%uuid` message against the configured commands.
pub fn resolve_command_input(msg: &str, key: &str, entries: &Vec<CommandEntry>) -> (r: CommandRequest)
    ensures
        fields_of(msg@).len() < 2 <==> r == CommandRequest::Rejected(InputRejection::Syntax),
        (fields_of(msg@).len() >= 2 && fields_of(msg@)[0] != key@) <==> r == CommandRequest::Rejected(
            InputRejection::Key,
        ),
        fields_of(msg@).len() >= 2 && fields_of(msg@)[0] == key@ ==> match lookup_command(
            entries@,
            requested_uuid(fields_of(msg@)[1]),
        ) {
            Some(c) => r matches CommandRequest::Run(cmd) && cmd@ == c,
            None => r is NotFound,
        },
{
    let text = chars_of(msg);
    let sep = chars_of(CONCAT_TAG);
    proof {
        lemma_tags();
    }
    let parts = split_exec(text.as_slice(), sep.as_slice());
    assert(parts@.len() == fields_of(msg@).len());
    if parts.len() < 2 {
        return CommandRequest::Rejected(InputRejection::Syntax);
    }
    let key_chars = chars_of(key);
    assert(parts@[0]@ == fields_of(msg@)[0]);
    if !chars_eq(parts[0].as_slice(), key_chars.as_slice()) {
        return CommandRequest::Rejected(InputRejection::Key);
    }
    assert(parts@[1]@ == fields_of(msg@)[1]);
    let dash: Vec<char> = vec!['-'];
    let segments = split_exec(parts[1].as_slice(), dash.as_slice());
    proof {
        lemma_split_nonempty(parts@[1]@, seq!['-']);
        assert(dash@ =~= seq!['-']);
    }
    let last = &segments[segments.len() - 1];
    assert(last@ == split_all(parts@[1]@, seq!['-']).last());
    let last_text = string_from_chars(last.as_slice());
    let upper = to_uppercase(last_text.as_str());
    let requested = chars_of(upper.as_str());
    match find_command(entries, &requested) {
        Some(c) => CommandRequest::Run(c),
        None => CommandRequest::NotFound,
    }
}

/// The notices carrying a command's output: the output framed and split
/// by `chunk_message`, each packet decoded as text.
pub fn output_notices(stdout: &str) -> (r: Vec<String>)
    ensures
        r@.len() == chunks_of(framed_bytes(stdout@), CHUNK_SIZE as nat).len(),
        forall|i: int|
            0 <= i < r@.len() ==> #[trigger] r@[i]@ == packet_text(
                chunks_of(framed_bytes(stdout@), CHUNK_SIZE as nat)[i],
            ),
{
    let chunks = chunk_message(stdout);
    let mut r: Vec<String> = Vec::new();
    let mut i: usize = 0;
    while i < chunks.len()
        invariant
            i <= chunks@.len(),
            r@.len() == i,
            views_of(chunks@) == chunks_of(framed_bytes(stdout@), CHUNK_SIZE as nat),
            forall|j: int| 0 <= j < i ==> #[trigger] r@[j]@ == packet_text(views_of(chunks@)[j]),
        decreases chunks@.len() - i,
    {
        let s = from_utf8_lossy(chunks[i].as_slice());
        proof {
            reveal(packet_text);
            assert(views_of(chunks@)[i as int] == chunks@[i as int]@);
        }
        r.push(s);
        i = i + 1;
    }
    r
}

/// A lower-case hexadecimal digit.
pub open spec fn is_lower_hex_char(c: char) -> bool {
    ('0' <= c && c <= '9') || ('a' <= c && c <= 'f')
}

/// The value of a string of hexadecimal digits.
pub open spec fn hex_digits_value(s: Seq<char>) -> nat
    decreases s.len(),
{
    if s.len() == 0 {
        0
    } else {
        hex_digits_value(s.drop_last()) * 16 + hex_value(s.last())
    }
}

proof fn lemma_digit_char_hex(d: nat)
    requires
        d < 16,
    ensures
        is_lower_hex_char(digit_char(d)),
        hex_value(digit_char(d)) == d,
{
    let c = digit_char(d);
    if d < 10 {
        assert(c as nat == d + 48);
    } else {
        assert(c as nat == d + 87);
    }
}

proof fn lemma_radix16(n: nat)
    ensures
        forall|k: int| 0 <= k < radix_digits(n, 16).len() ==> is_lower_hex_char(#[trigger] radix_digits(n, 16)[k]),
        hex_digits_value(radix_digits(n, 16)) == n,
    decreases n,
{
    if n < 16 {
        lemma_digit_char_hex(n);
        let r = radix_digits(n, 16);
        assert(r == seq![digit_char(n)]);
        assert(r.drop_last() =~= Seq::<char>::empty());
        assert(hex_digits_value(r) == hex_digits_value(r.drop_last()) * 16 + hex_value(r.last()));
        assert(hex_digits_value(Seq::<char>::empty()) == 0);
    } else {
        vstd::arithmetic::div_mod::lemma_div_decreases(n as int, 16);
        lemma_radix16(n / 16);
        lemma_digit_char_hex(n % 16);
        let r = radix_digits(n, 16);
        let h = radix_digits(n / 16, 16);
        assert(r == h.push(digit_char(n % 16)));
        assert(r.drop_last() =~= h);
        assert forall|k: int| 0 <= k < r.len() implies is_lower_hex_char(#[trigger] r[k]) by {
            if k < h.len() {
                assert(r[k] == h[k]);
            }
        }
        vstd::arithmetic::div_mod::lemma_fundamental_div_mod(n as int, 16);
        assert(r.last() == digit_char(n % 16));
        assert(hex_digits_value(r) == hex_digits_value(h) * 16 + hex_value(r.last()));
        assert((n / 16) * 16 == 16 * (n / 16)) by (nonlinear_arith);
    }
}

proof fn lemma_zeros_value(z: Seq<char>)
    requires
        forall|k: int| 0 <= k < z.len() ==> #[trigger] z[k] == '0',
    ensures
        hex_digits_value(z) == 0,
    decreases z.len(),
{
    if z.len() > 0 {
        lemma_zeros_value(z.drop_last());
    }
}

pub(crate) proof fn lemma_leading_zeros_value(z: Seq<char>, s: Seq<char>)
    requires
        forall|k: int| 0 <= k < z.len() ==> #[trigger] z[k] == '0',
    ensures
        hex_digits_value(z + s) == hex_digits_value(s),
    decreases s.len(),
{
    if s.len() == 0 {
        assert(z + s =~= z);
        lemma_zeros_value(z);
    } else {
        assert((z + s).drop_last() =~= z + s.drop_last());
        lemma_leading_zeros_value(z, s.drop_last());
    }
}

/// The suffix of the `i`-th item is lower-case hex with value `i + 1`.
pub(crate) proof fn lemma_guid4(i: nat)
    ensures
        forall|k: int| 0 <= k < guid4_text(i).len() ==> is_lower_hex_char(#[trigger] guid4_text(i)[k]),
        hex_digits_value(guid4_text(i)) == i + 1,
        guid4_text(i).len() >= 4,
{
    let d = lower_hex(i + 1);
    lemma_radix16(i + 1);
    if d.len() < 4 {
        let z = Seq::new((4 - d.len()) as nat, |k: int| '0');
        assert(guid4_text(i) == z + d);
        lemma_leading_zeros_value(z, d);
        assert forall|k: int| 0 <= k < guid4_text(i).len() implies is_lower_hex_char(#[trigger] guid4_text(i)[k]) by {
            if k >= z.len() {
                assert(guid4_text(i)[k] == d[k - z.len()]);
            }
        }
    }
}

proof fn lemma_upper_injective(a: Seq<char>, b: Seq<char>)
    requires
        forall|k: int| 0 <= k < a.len() ==> is_lower_hex_char(#[trigger] a[k]),
        forall|k: int| 0 <= k < b.len() ==> is_lower_hex_char(#[trigger] b[k]),
        a.map_values(|c: char| ascii_upper_char(c)) == b.map_values(|c: char| ascii_upper_char(c)),
    ensures
        a == b,
{
    let ua = a.map_values(|c: char| ascii_upper_char(c));
    let ub = b.map_values(|c: char| ascii_upper_char(c));
    assert(a.len() == ua.len() && b.len() == ub.len());
    assert forall|k: int| 0 <= k < a.len() implies a[k] == b[k] by {
        assert(ua[k] == ascii_upper_char(a[k]));
        assert(ub[k] == ascii_upper_char(b[k]));
        assert(is_lower_hex_char(a[k]) && is_lower_hex_char(b[k]));
    }
    assert(a =~= b);
}

proof fn lemma_lower_hex_ascii(s: Seq<char>)
    requires
        forall|k: int| 0 <= k < s.len() ==> is_lower_hex_char(#[trigger] s[k]),
    ensures
        is_ascii_chars(s),
        upper_text(s) == s.map_values(|c: char| ascii_upper_char(c)),
{
    assert forall|k: int| 0 <= k < s.len() implies '\0' <= #[trigger] s[k] <= '\u{7f}' by {
        assert(is_lower_hex_char(s[k]));
    }
}

/// Upper-case suffix text of the `i`-th item.
pub open spec fn upper_guid(i: nat) -> Seq<char> {
    upper_text(guid4_text(i))
}

/// The upper-cased suffix of item `i` spells the whole label UUID text of
/// an earlier item (the first time is at `i + 1 == 0xFD2BCCCC0001`).
pub open spec fn suffix_names_earlier_label(i: nat) -> bool {
    exists|j: nat| j < i && upper_guid(i) == command_label_prefix() + #[trigger] upper_guid(j)
}

proof fn lemma_label_upper(j: nat)
    ensures
        upper_text(command_label_prefix() + guid4_text(j)) == command_label_prefix() + upper_guid(j),
{
    let p = command_label_prefix();
    let g = guid4_text(j);
    lemma_guid4(j);
    lemma_lower_hex_ascii(g);
    assert forall|k: int| 0 <= k < (p + g).len() implies '\0' <= #[trigger] (p + g)[k] <= '\u{7f}' by {
        if k >= 8 {
            assert((p + g)[k] == g[k - 8]);
            assert(is_lower_hex_char(g[k - 8]));
        }
    }
    assert((p + g).map_values(|c: char| ascii_upper_char(c)) =~= p + g.map_values(|c: char| ascii_upper_char(c)));
}

proof fn lemma_lookup_at(entries: Seq<CommandEntry>, req: Seq<char>, i: int)
    requires
        0 <= i < entries.len(),
        entry_matches(entries[i].uuid_str@, req),
        forall|j: int| 0 <= j < i ==> !entry_matches(#[trigger] entries[j].uuid_str@, req),
    ensures
        lookup_command(entries, req) == Some(entries[i].command@),
    decreases i,
{
    if i > 0 {
        assert(!entry_matches(entries[0].uuid_str@, req));
        let rest = entries.drop_first();
        assert forall|j: int| 0 <= j < i - 1 implies !entry_matches(#[trigger] rest[j].uuid_str@, req) by {
            assert(rest[j] == entries[j + 1]);
        }
        lemma_lookup_at(rest, req, i - 1);
    }
}

proof fn lemma_no_char_no_occurrence(s: Seq<char>, p: Seq<char>)
    requires
        p.len() > 0,
        forall|k: int| 0 <= k < s.len() ==> #[trigger] s[k] != p[0],
    ensures
        !contains_seq(s, p),
{
    assert forall|i: int| !occurs_at(s, p, i) by {
        if occurs_at(s, p, i) {
            assert(s.subrange(i, i + p.len())[0] == s[i]);
        }
    }
}

/// A command message `key%&%XXXX`, where `XXXX` is the suffix of the
/// `i`-th command's label UUID (`FD2BCCCCXXXX`), selects that command: its
/// fields are the key and the suffix, and the suffix looks up command `i`.
/// This holds unless the suffix also spells an earlier label's whole UUID.
pub proof fn law_command_by_suffix(entries: Seq<CommandEntry>, key: Seq<char>, i: int)
    requires
        0 <= i < entries.len(),
        forall|j: int| 0 <= j < entries.len() ==> #[trigger] entries[j].uuid_str@ == command_label_prefix() + guid4_text(j as nat),
        !contains_seq(key + seq!['%', '&'], concat_tag()),
        !suffix_names_earlier_label(i as nat),
    ensures
        ({
            let f = fields_of(key + concat_tag() + guid4_text(i as nat));
            &&& f.len() >= 2
            &&& f[0] == key
            &&& lookup_command(entries, requested_uuid(f[1])) == Some(entries[i].command@)
        }),
{
    let g = guid4_text(i as nat);
    let t = concat_tag();
    lemma_guid4(i as nat);
    assert(t.drop_last() =~= seq!['%', '&']);
    lemma_no_char_no_occurrence(g, t);
    lemma_split_single(g, t);
    lemma_split_prefix(key, t, g);
    lemma_no_char_no_occurrence(g, seq!['-']);
    lemma_split_single(g, seq!['-']);
    let req = upper_guid(i as nat);
    assert(requested_uuid(g) == req);
    lemma_lower_hex_ascii(g);
    lemma_label_upper(i as nat);
    let p = command_label_prefix();
    assert((p + req).skip(8) =~= req);
    assert forall|j: int| 0 <= j < i implies !entry_matches(#[trigger] entries[j].uuid_str@, req) by {
        lemma_label_upper(j as nat);
        lemma_guid4(j as nat);
        let gj = guid4_text(j as nat);
        lemma_lower_hex_ascii(gj);
        let up = p + upper_guid(j as nat);
        assert(up.skip(8) =~= upper_guid(j as nat));
        if up == req {
            assert(upper_guid(i as nat) == p + upper_guid(j as nat));
            assert(suffix_names_earlier_label(i as nat));
        }
        if upper_guid(j as nat) == req {
            lemma_upper_injective(gj, g);
        }
    }
    lemma_lookup_at(entries, req, i);
}

} // verus!
