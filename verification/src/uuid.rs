//! GATT UUIDs of the service: parsing of the short and full hex forms,
//! the dynamic per-item suffixes and their textual rendering.
use vstd::prelude::*;
use crate::text::{chars_of, string_from_chars, push_radix_digits, pad_digits_left, pad_left, lower_hex};
use crate::custom_command::{hex_digits_value, is_lower_hex_char, lemma_guid4, lemma_leading_zeros_value};

verus! {

/// A 128-bit Bluetooth UUID, held as its 16 bytes in big-endian order.
#[derive(Clone, Copy, Debug, PartialEq, Eq)]
pub struct BleUuid {
    pub bytes: [u8; 16],
}

pub open spec fn is_hex_digit(c: char) -> bool {
    ('0' <= c && c <= '9') || ('a' <= c && c <= 'f') || ('A' <= c && c <= 'F')
}

pub open spec fn hex_value(c: char) -> nat {
    if '0' <= c && c <= '9' {
        (c as nat - '0' as nat) as nat
    } else if 'a' <= c && c <= 'f' {
        (c as nat - 'a' as nat + 10) as nat
    } else {
        (c as nat - 'A' as nat + 10) as nat
    }
}

/// The lower-case hex digit of a nibble.
pub open spec fn nibble_char(n: nat) -> char {
    if n < 10 {
        ((n + '0' as nat) as u32) as char
    } else {
        ((n - 10 + 'a' as nat) as u32) as char
    }
}

/// The hex text left-padded with '0' to 32 characters (longer text is kept whole).
pub open spec fn padded32(hex: Seq<char>) -> Seq<char> {
    if hex.len() < 32 {
        Seq::new((32 - hex.len()) as nat, |i: int| '0') + hex
    } else {
        hex
    }
}

/// The 32 leading characters of the padded text are all hex digits.
pub open spec fn uuid_text_ok(hex: Seq<char>) -> bool {
    forall|i: int| 0 <= i < 32 ==> #[trigger] is_hex_digit(padded32(hex)[i])
}

/// The 16 bytes encoded by 32 hex digits.
pub open spec fn decode_hex32(p: Seq<char>) -> Seq<u8> {
    Seq::new(16, |j: int| (hex_value(p[2 * j]) * 16 + hex_value(p[2 * j + 1])) as u8)
}

/// Position of the `j`-th hex digit within the hyphenated 8-4-4-4-12 form.
pub open spec fn hyphenated_pos(j: int) -> int {
    if j < 8 {
        j
    } else if j < 12 {
        j + 1
    } else if j < 16 {
        j + 2
    } else if j < 20 {
        j + 3
    } else {
        j + 4
    }
}

pub open spec fn is_hyphen_pos(i: int) -> bool {
    i == 8 || i == 13 || i == 18 || i == 23
}

/// The 36-character text is the hyphenated form: hyphens at 8, 13, 18, 23, hex elsewhere.
pub open spec fn is_hyphenated_hex(t: Seq<char>) -> bool {
    &&& t.len() == 36
    &&& forall|i: int| 0 <= i < 36 && is_hyphen_pos(i) ==> t[i] == '-'
    &&& forall|i: int| 0 <= i < 36 && !is_hyphen_pos(i) ==> is_hex_digit(#[trigger] t[i])
}

/// The 32 hex digits of a hyphenated text, hyphens dropped.
pub open spec fn hyphenated_digits(t: Seq<char>) -> Seq<char> {
    Seq::new(32, |j: int| t[hyphenated_pos(j)])
}

/// The lower-case hyphenated rendering of 16 bytes.
pub open spec fn hyphenated_lower(b: Seq<u8>) -> Seq<char> {
    Seq::new(
        36,
        |i: int|
            if is_hyphen_pos(i) {
                '-'
            } else {
                let j = if i < 8 {
                    i
                } else if i < 13 {
                    i - 1
                } else if i < 18 {
                    i - 2
                } else if i < 23 {
                    i - 3
                } else {
                    i - 4
                };
                if j % 2 == 0 {
                    nibble_char((b[j / 2] / 16) as nat)
                } else {
                    nibble_char((b[j / 2] % 16) as nat)
                }
            },
    )
}

/// Parses a 36-character hyphenated UUID text.
///
/// Trusted: calls `uuid::Uuid::parse_str`, keeping the bytes on success.
/// For a 36-character ASCII input the crate checks the four hyphens and
/// decodes the 32 hex digits (either case); the contract states exactly that.
#[verifier::external_body]
fn uuid_parse_hyphenated(text: &[char]) -> (r: Option<[u8; 16]>)
    requires
        text@.len() == 36,
        forall|i: int| 0 <= i < 36 ==> (text@[i] as u32) < 128,
    ensures
        r.is_some() <==> is_hyphenated_hex(text@),
        r matches Some(b) ==> b@ == decode_hex32(hyphenated_digits(text@)),
{
    let s: String = text.iter().collect();
    ::uuid::Uuid::parse_str(&s).ok().map(|u| *u.as_bytes())
}

/// Renders 16 bytes as a hyphenated lower-case UUID.
///
/// Trusted: calls `Display for uuid::Uuid` (lower-case hex, 8-4-4-4-12).
#[verifier::external_body]
fn uuid_hyphenated_text(bytes: [u8; 16]) -> (s: String)
    ensures
        s@ == hyphenated_lower(bytes@),
{
    ::uuid::Uuid::from_bytes(bytes).to_string()
}

impl BleUuid {
    /// The UUID in its canonical lower-case hyphenated form.
    pub fn to_string(&self) -> (s: String)
        ensures
            s@ == hyphenated_lower(self.bytes@),
    {
        uuid_hyphenated_text(self.bytes)
    }
}

/// Whether `parse_uuid` accepts the text: its first 32 characters after
/// left-padding with zeros are hex digits.
pub fn is_uuid_text(hex: &str) -> (r: bool)
    ensures
        r == uuid_text_ok(hex@),
{
    let chars = chars_of(hex);
    let n = chars.len();
    let fill: usize = if n < 32 { 32 - n } else { 0 };
    let mut i: usize = 0;
    while i < 32
        invariant
            i <= 32,
            n == chars@.len(),
            chars@ == hex@,
            fill == (if n < 32 { 32 - n } else { 0 }),
            forall|j: int| 0 <= j < i ==> #[trigger] is_hex_digit(padded32(hex@)[j]),
        decreases 32 - i,
    {
        if i >= fill {
            let c = chars[i - fill];
            assert(padded32(hex@)[i as int] == c);
            if !(('0' <= c && c <= '9') || ('a' <= c && c <= 'f') || ('A' <= c && c <= 'F')) {
                assert(!is_hex_digit(padded32(hex@)[i as int]));
                return false;
            }
        } else {
            assert(padded32(hex@)[i as int] == '0');
        }
        i = i + 1;
    }
    true
}

/// Parse a hex UUID string into a 128-bit UUID.
/// Short texts are left-padded with zeros to 32 hex digits, as BLE clients
/// of the service expect; of longer texts the first 32 digits are used.
pub fn parse_uuid(hex: &str) -> (u: BleUuid)
    requires
        uuid_text_ok(hex@),
    ensures
        u.bytes@ == decode_hex32(padded32(hex@).take(32)),
{
    let chars = chars_of(hex);
    let mut padded: Vec<char> = Vec::new();
    if chars.len() < 32 {
        let fill = 32 - chars.len();
        let mut k: usize = 0;
        while k < fill
            invariant
                k <= fill,
                fill == 32 - chars@.len(),
                padded@ == Seq::new(k as nat, |i: int| '0'),
            decreases fill - k,
        {
            padded.push('0');
            k = k + 1;
        }
    }
    let mut k: usize = 0;
    let ghost start = padded@;
    while k < chars.len()
        invariant
            k <= chars@.len(),
            padded@ == start + chars@.take(k as int),
        decreases chars@.len() - k,
    {
        padded.push(chars[k]);
        assert(chars@.take(k as int + 1) == chars@.take(k as int).push(chars@[k as int]));
        k = k + 1;
    }
    assert(chars@.take(chars@.len() as int) == chars@);
    assert(padded@ == padded32(hex@));
    let mut text: Vec<char> = Vec::new();
    let mut j: usize = 0;
    while j < 32
        invariant
            j <= 32,
            padded@ == padded32(hex@),
            uuid_text_ok(hex@),
            padded@.len() >= 32,
            text@.len() == hyphenated_pos(j as int) - (if j == 8 || j == 12 || j == 16 || j == 20 { 1int } else { 0int }),
            forall|i: int| 0 <= i < j ==> text@[hyphenated_pos(i)] == padded@[i],
            forall|i: int| 0 <= i < text@.len() && is_hyphen_pos(i) ==> text@[i] == '-',
            forall|i: int| 0 <= i < text@.len() ==> (text@[i] as u32) < 128,
            forall|i: int| 0 <= i < text@.len() && !is_hyphen_pos(i) ==> is_hex_digit(#[trigger] text@[i]),
        decreases 32 - j,
    {
        if j == 8 || j == 12 || j == 16 || j == 20 {
            text.push('-');
        }
        let c = padded[j];
        assert(is_hex_digit(padded32(hex@)[j as int]));
        text.push(c);
        j = j + 1;
    }
    assert(text@.len() == 36);
    assert(is_hyphenated_hex(text@));
    assert(hyphenated_digits(text@) == padded@.take(32));
    match uuid_parse_hyphenated(text.as_slice()) {
        Some(bytes) => BleUuid { bytes },
        None => {
            assert(false);
            BleUuid { bytes: [0u8; 16] }
        },
    }
}


// Service UUID (32 hex chars = full 128-bit)
pub const SERVICE_ID: &'static str = "FD2B4448AA0F4A15A62FEB0BE77A0000";

// Standard characteristic UUIDs (32 hex chars)
pub const SERVICE_NAME: &'static str = "FD2B4448AA0F4A15A62FEB0BE77A0001";
pub const DEVICE_MODEL: &'static str = "FD2B4448AA0F4A15A62FEB0BE77A0002";
pub const WIFI_NAME: &'static str = "FD2B4448AA0F4A15A62FEB0BE77A0003";
pub const IP_ADDRESS: &'static str = "FD2B4448AA0F4A15A62FEB0BE77A0004";
pub const INPUT: &'static str = "FD2B4448AA0F4A15A62FEB0BE77A0005";
pub const NOTIFY_MESSAGE: &'static str = "FD2B4448AA0F4A15A62FEB0BE77A0006";
pub const INPUT_SEP: &'static str = "FD2B4448AA0F4A15A62FEB0BE77A0007";
pub const CUSTOM_COMMAND_INPUT: &'static str = "FD2B4448AA0F4A15A62FEB0BE77A0008";
pub const CUSTOM_COMMAND_NOTIFY: &'static str = "FD2B4448AA0F4A15A62FEB0BE77A0009";

// SSH tunnel characteristic UUIDs
pub const SSH_CTRL: &'static str = "FD2B4448AA0F4A15A62FEB0BE77A000A";
pub const SSH_RX: &'static str = "FD2B4448AA0F4A15A62FEB0BE77A000B";
pub const SSH_TX: &'static str = "FD2B4448AA0F4A15A62FEB0BE77A000C";
pub const SSH_USERNAME: &'static str = "FD2B4448AA0F4A15A62FEB0BE77A000D";

// Custom info/command UUID prefixes (8 hex chars, appended with guid4(index) = 12 chars total)
pub const CUSTOM_INFO_LABEL_PREFIX: &'static str = "FD2BCCCA";
pub const CUSTOM_INFO_PREFIX: &'static str = "FD2BCCCB";
pub const CUSTOM_COMMAND_LABEL_PREFIX: &'static str = "FD2BCCCC";

// Custom info/command count UUIDs (12 hex chars, left-padded to 32)
pub const CUSTOM_INFO_COUNT: &'static str = "FD2BCCAA0000";
pub const CUSTOM_COMMAND_COUNT: &'static str = "FD2BCCAC0000";

/// The suffix text of the `index`-th dynamic item: `index + 1` in lower-case
/// hex, zero-padded to 4 characters.
pub open spec fn guid4_text(index: nat) -> Seq<char> {
    pad_left(lower_hex(index + 1), '0', 4)
}

/// Generate a 4-character hex suffix for dynamic UUIDs:
/// `(index + 1)` in hex, zero-padded to 4 chars.
pub fn guid4(index: usize) -> (s: String)
    requires
        index < usize::MAX,
    ensures
        s@ == guid4_text(index as nat),
{
    let mut digits: Vec<char> = Vec::new();
    push_radix_digits((index + 1) as u64, 16, &mut digits);
    assert(digits@ == lower_hex(index as nat + 1));
    let padded = pad_digits_left(&digits, '0', 4);
    string_from_chars(padded.as_slice())
}

/// Build a custom UUID string from a prefix and a suffix.
/// E.g., prefix="FD2BCCCA", suffix="0001" => "FD2BCCCA0001"
pub fn custom_uuid_str(prefix: &str, suffix: &str) -> (s: String)
    ensures
        s@ == prefix@ + suffix@,
{
    let mut s = String::from_str(prefix);
    s.append(suffix);
    s
}

/// Build and parse a custom UUID from prefix + index.
pub fn custom_uuid(prefix: &str, index: usize) -> (u: BleUuid)
    requires
        index < usize::MAX,
        uuid_text_ok(prefix@ + guid4_text(index as nat)),
    ensures
        u.bytes@ == decode_hex32(padded32(prefix@ + guid4_text(index as nat)).take(32)),
{
    let suffix = guid4(index);
    let text = custom_uuid_str(prefix, suffix.as_str());
    parse_uuid(text.as_str())
}

/// `CUSTOM_INFO_LABEL_PREFIX` as characters.
pub open spec fn info_label_prefix() -> Seq<char> {
    seq!['F', 'D', '2', 'B', 'C', 'C', 'C', 'A']
}

/// `CUSTOM_INFO_PREFIX` as characters.
pub open spec fn info_value_prefix() -> Seq<char> {
    seq!['F', 'D', '2', 'B', 'C', 'C', 'C', 'B']
}

/// The bytes of the UUID of the `index`-th dynamic item under `prefix`.
pub open spec fn custom_uuid_bytes(prefix: Seq<char>, index: nat) -> Seq<u8> {
    decode_hex32(padded32(prefix + guid4_text(index)).take(32))
}

proof fn lemma_lower_hex_short(n: nat)
    requires
        n < 0x10000,
    ensures
        lower_hex(n).len() <= 4,
{
    if n >= 16 {
        let a = n / 16;
        assert(lower_hex(n) == lower_hex(a).push(crate::text::digit_char(n % 16)));
        if a >= 16 {
            let b = a / 16;
            assert(lower_hex(a) == lower_hex(b).push(crate::text::digit_char(a % 16)));
            if b >= 16 {
                let c = b / 16;
                assert(c < 16);
                assert(lower_hex(b) == lower_hex(c).push(crate::text::digit_char(b % 16)));
                assert(lower_hex(c).len() == 1);
            }
        }
    }
}

/// The value UUID of the `index`-th custom info item is its label UUID with
/// the prefix's last hex digit one higher (`FD2BCCCA0001` reads back as
/// `FD2BCCCB0001`): the two UUIDs agree on every byte but the fourteenth,
/// which is one more in the value's. This holds while the item's suffix
/// fits in four hex digits.
pub proof fn law_info_value_follows_label(index: nat)
    requires
        index + 1 < 0x10000,
    ensures
        CUSTOM_INFO_LABEL_PREFIX@ == info_label_prefix(),
        CUSTOM_INFO_PREFIX@ == info_value_prefix(),
        forall|j: int|
            0 <= j < 16 && j != 13 ==> #[trigger] custom_uuid_bytes(info_value_prefix(), index)[j]
                == custom_uuid_bytes(info_label_prefix(), index)[j],
        custom_uuid_bytes(info_value_prefix(), index)[13] == custom_uuid_bytes(info_label_prefix(), index)[13]
            + 1,
{
    reveal_strlit("FD2BCCCA");
    reveal_strlit("FD2BCCCB");
    assert(CUSTOM_INFO_LABEL_PREFIX@ =~= info_label_prefix());
    assert(CUSTOM_INFO_PREFIX@ =~= info_value_prefix());
    let g = guid4_text(index);
    lemma_lower_hex_short(index + 1);
    assert(g.len() == 4);
    let lt = info_label_prefix() + g;
    let vt = info_value_prefix() + g;
    let lp = padded32(lt);
    let vp = padded32(vt);
    assert(lp.len() == 32 && vp.len() == 32);
    assert(lp.take(32) =~= lp);
    assert(vp.take(32) =~= vp);
    assert forall|k: int| 0 <= k < 32 && k != 27 implies #[trigger] vp[k] == lp[k] by {
        if k >= 20 {
            assert(lp[k] == lt[k - 20]);
            assert(vp[k] == vt[k - 20]);
            if k >= 28 {
                assert(lt[k - 20] == g[k - 28]);
                assert(vt[k - 20] == g[k - 28]);
            }
        }
    }
    assert(lp[27] == lt[7] && lt[7] == 'A');
    assert(vp[27] == vt[7] && vt[7] == 'B');
    let l = custom_uuid_bytes(info_label_prefix(), index);
    let v = custom_uuid_bytes(info_value_prefix(), index);
    assert forall|j: int| 0 <= j < 16 && j != 13 implies #[trigger] v[j] == l[j] by {
        assert(vp[2 * j] == lp[2 * j]);
        assert(vp[2 * j + 1] == lp[2 * j + 1]);
    }
    assert(lp[26] == 'C' && vp[26] == 'C');
}

/// The number that bytes denote, most significant first (what
/// `Uuid::as_u128` gives of a UUID's 16 bytes).
pub open spec fn be_value(b: Seq<u8>) -> nat
    decreases b.len(),
{
    if b.len() == 0 {
        0
    } else {
        be_value(b.drop_last()) * 256 + b.last() as nat
    }
}

/// Each pair of hex digits makes one byte: the bytes read as a number are
/// the digits read as a hexadecimal number.
proof fn lemma_be_decode(p: Seq<char>, k: int)
    requires
        p.len() == 32,
        0 <= k <= 16,
        forall|m: int| 0 <= m < 32 ==> is_hex_digit(#[trigger] p[m]),
    ensures
        be_value(decode_hex32(p).take(k)) == hex_digits_value(p.take(2 * k)),
    decreases k,
{
    if k > 0 {
        lemma_be_decode(p, k - 1);
        let d = decode_hex32(p);
        assert(d.take(k).drop_last() =~= d.take(k - 1));
        assert(p.take(2 * k).drop_last() =~= p.take(2 * k - 1));
        assert(p.take(2 * k - 1).drop_last() =~= p.take(2 * k - 2));
        let a = p[2 * k - 2];
        let b = p[2 * k - 1];
        assert(is_hex_digit(a) && is_hex_digit(b));
        assert(hex_value(a) < 16 && hex_value(b) < 16);
        assert(d[k - 1] == hex_value(a) * 16 + hex_value(b));
        assert(d.take(k).last() == d[k - 1]);
        assert(p.take(2 * k).last() == b);
        assert(p.take(2 * k - 1).last() == a);
        assert(be_value(d.take(k)) == be_value(d.take(k - 1)) * 256 + d[k - 1] as nat);
        assert(hex_digits_value(p.take(2 * k)) == hex_digits_value(p.take(2 * k - 1)) * 16 + hex_value(b));
        assert(hex_digits_value(p.take(2 * k - 1)) == hex_digits_value(p.take(2 * k - 2)) * 16 + hex_value(a));
    } else {
        assert(decode_hex32(p).take(0).len() == 0);
        assert(p.take(0).len() == 0);
    }
}

/// Appending four hex digits multiplies the value by 16^4 and adds theirs.
proof fn lemma_hex_append4(a: Seq<char>, g: Seq<char>)
    requires
        g.len() == 4,
    ensures
        hex_digits_value(a + g) == hex_digits_value(a) * 0x10000 + hex_digits_value(g),
{
    let e = Seq::<char>::empty();
    assert((a + g).drop_last() =~= a + g.take(3));
    assert((a + g.take(3)).drop_last() =~= a + g.take(2));
    assert((a + g.take(2)).drop_last() =~= a + g.take(1));
    assert((a + g.take(1)).drop_last() =~= a);
    assert(g.drop_last() =~= g.take(3));
    assert(g.take(3).drop_last() =~= g.take(2));
    assert(g.take(2).drop_last() =~= g.take(1));
    assert(g.take(1).drop_last() =~= e);
    assert(hex_digits_value(e) == 0);
    let v0 = hex_value(g[0]);
    let v1 = hex_value(g[1]);
    let v2 = hex_value(g[2]);
    let v3 = hex_value(g[3]);
    assert(hex_digits_value(a + g.take(1)) == hex_digits_value(a) * 16 + v0);
    assert(hex_digits_value(a + g.take(2)) == hex_digits_value(a + g.take(1)) * 16 + v1);
    assert(hex_digits_value(a + g.take(3)) == hex_digits_value(a + g.take(2)) * 16 + v2);
    assert(hex_digits_value(a + g) == hex_digits_value(a + g.take(3)) * 16 + v3);
    assert(hex_digits_value(g.take(1)) == v0);
    assert(hex_digits_value(g.take(2)) == v0 * 16 + v1);
    assert(hex_digits_value(g.take(3)) == (v0 * 16 + v1) * 16 + v2);
    assert(hex_digits_value(g) == ((v0 * 16 + v1) * 16 + v2) * 16 + v3);
}

/// The UUID of the `index`-th dynamic item under an 8-digit prefix is the
/// prefix shifted left by 16 bits with `index + 1` below it, so items with
/// different indexes get different UUIDs. This holds while the suffix fits
/// in four hex digits.
pub proof fn law_custom_uuid_value(prefix: Seq<char>, i: nat, j: nat)
    requires
        prefix.len() == 8,
        forall|k: int| 0 <= k < 8 ==> is_hex_digit(#[trigger] prefix[k]),
        i + 1 < 0x10000,
        j + 1 < 0x10000,
    ensures
        be_value(custom_uuid_bytes(prefix, i)) == hex_digits_value(prefix) * 0x10000 + i + 1,
        i != j ==> custom_uuid_bytes(prefix, i) != custom_uuid_bytes(prefix, j),
{
    lemma_custom_uuid_value(prefix, i);
    lemma_custom_uuid_value(prefix, j);
}

proof fn lemma_custom_uuid_value(prefix: Seq<char>, i: nat)
    requires
        prefix.len() == 8,
        forall|k: int| 0 <= k < 8 ==> is_hex_digit(#[trigger] prefix[k]),
        i + 1 < 0x10000,
    ensures
        be_value(custom_uuid_bytes(prefix, i)) == hex_digits_value(prefix) * 0x10000 + i + 1,
{
    let g = guid4_text(i);
    lemma_guid4(i);
    lemma_lower_hex_short(i + 1);
    assert(g.len() == 4);
    let t = prefix + g;
    let z = Seq::new(20, |k: int| '0');
    let p = padded32(t);
    assert(p == z + t);
    assert(p.take(32) =~= p);
    assert forall|m: int| 0 <= m < 32 implies is_hex_digit(#[trigger] p[m]) by {
        if m >= 20 {
            assert(p[m] == t[m - 20]);
            if m >= 28 {
                assert(t[m - 20] == g[m - 28]);
                assert(is_lower_hex_char(g[m - 28]));
            } else {
                assert(t[m - 20] == prefix[m - 20]);
            }
        }
    }
    lemma_be_decode(p, 16);
    assert(decode_hex32(p).take(16) =~= decode_hex32(p));
    lemma_leading_zeros_value(z, t);
    lemma_hex_append4(prefix, g);
}

/// The UUID `parse_uuid` gives of a hex text is the number the text
/// denotes: its 16 bytes, read most significant first, equal the value of
/// the text's 32 hex digits (either case), and a shorter text denotes the
/// same number as it does alone, being padded with leading zeros.
pub proof fn law_parse_uuid_value(hex: Seq<char>)
    requires
        uuid_text_ok(hex),
    ensures
        be_value(decode_hex32(padded32(hex).take(32))) == hex_digits_value(padded32(hex).take(32)),
        hex.len() <= 32 ==> be_value(decode_hex32(padded32(hex).take(32))) == hex_digits_value(hex),
{
    let p = padded32(hex);
    assert(p.len() >= 32);
    let p32 = p.take(32);
    assert forall|m: int| 0 <= m < 32 implies is_hex_digit(#[trigger] p32[m]) by {
        assert(is_hex_digit(p[m]));
    }
    lemma_be_decode(p32, 16);
    assert(decode_hex32(p32).take(16) =~= decode_hex32(p32));
    assert(p32.take(32) =~= p32);
    if hex.len() <= 32 {
        assert(p32 =~= p);
        if hex.len() < 32 {
            let z = Seq::new((32 - hex.len()) as nat, |i: int| '0');
            assert(p == z + hex);
            lemma_leading_zeros_value(z, hex);
        } else {
            assert(p == hex);
        }
    }
}

/// The suffix of the `index`-th dynamic item is `index + 1` in lower-case
/// hex: its digits are lower-case hex with that value, at least four of
/// them, exactly four while the value fits in four.
pub proof fn law_guid4_is_index_plus_one(index: nat)
    ensures
        forall|k: int| 0 <= k < guid4_text(index).len() ==> is_lower_hex_char(#[trigger] guid4_text(index)[k]),
        hex_digits_value(guid4_text(index)) == index + 1,
        guid4_text(index).len() >= 4,
        index + 1 < 0x10000 ==> guid4_text(index).len() == 4,
{
    lemma_guid4(index);
    if index + 1 < 0x10000 {
        lemma_lower_hex_short(index + 1);
    }
}

} // verus!
