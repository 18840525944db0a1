//! Controller-level advertising, used when BlueZ refuses the D-Bus
//! advertisement: the `hcitool` command lines and the Linux management
//! (MGMT) socket commands, their packets and the reading of their replies.
use vstd::prelude::*;
use crate::text::{
    chars_of, chars_eq, string_from_chars, from_utf8_lossy, lossy_utf8, encode_utf8, valid_utf8,
    lower_hex, pad_left, push_radix_digits, pad_digits_left,
};
use crate::lines::{trim, lines_of, char_lines, lines_chars, trim_chars};
use crate::uuid::SERVICE_ID;
use vstd::utf8::{is_char_boundary, encode_utf8_valid_utf8, is_char_boundary_start_end_of_seq};

verus! {

/// Controller index the commands go to.
pub const MGMT_INDEX: u16 = 0;

pub const MGMT_OP_SET_BONDABLE: u16 = 0x0009;

pub const MGMT_OP_ADD_ADVERTISING: u16 = 0x003e;

pub const MGMT_OP_REMOVE_ADVERTISING: u16 = 0x003f;

pub const MGMT_EV_CMD_COMPLETE: u16 = 0x0001;

pub const MGMT_EV_CMD_STATUS: u16 = 0x0002;

pub const MGMT_STATUS_SUCCESS: u8 = 0x00;

pub const MGMT_STATUS_INVALID_PARAMS: u8 = 0x0d;

/// Advertising flag: connectable.
pub const MGMT_ADV_FLAG_CONNECTABLE: u32 = 0x0000_0001;

/// Advertising flag: the kernel manages the flags field.
pub const MGMT_ADV_FLAG_MANAGED_FLAGS: u32 = 0x0000_0008;

/// Largest local name put in the scan response, in bytes.
pub const MAX_LOCAL_NAME_BYTES: usize = 29;

/// The `hcitool` arguments that set the advertising data for the service.
pub open spec fn hci_adv_data_for_service() -> Seq<&'static str> {
    seq![
        "cmd", "0x08", "0x0008", "15", "02", "01", "06", "11", "07", "00", "00", "7A", "E7", "0B",
        "EB", "2F", "A6", "15", "4A", "0F", "AA", "48", "44", "2B", "FD", "00", "00", "00", "00",
        "00", "00", "00", "00", "00", "00",
    ]
}

/// The `hcitool` arguments that set flags-only advertising data.
pub open spec fn hci_adv_data_flags_only() -> Seq<&'static str> {
    seq!["cmd", "0x08", "0x0008", "03", "02", "01", "06"]
}

/// The `hcitool` arguments that set the advertising data: the 128-bit
/// service UUID for the service's own id, else the flags alone.
pub fn hci_service_uuid_adv_data(service_uuid: &str) -> (r: Vec<&'static str>)
    ensures
        service_uuid@ == SERVICE_ID@ ==> r@ == hci_adv_data_for_service(),
        service_uuid@ != SERVICE_ID@ ==> r@ == hci_adv_data_flags_only(),
{
    let a = chars_of(service_uuid);
    let b = chars_of(SERVICE_ID);
    if chars_eq(a.as_slice(), b.as_slice()) {
        let r = vec![
            "cmd", "0x08", "0x0008", "15", "02", "01", "06", "11", "07", "00", "00", "7A", "E7",
            "0B", "EB", "2F", "A6", "15", "4A", "0F", "AA", "48", "44", "2B", "FD", "00", "00",
            "00", "00", "00", "00", "00", "00", "00", "00",
        ];
        assert(r@ =~= hci_adv_data_for_service());
        r
    } else {
        let r = vec!["cmd", "0x08", "0x0008", "03", "02", "01", "06"];
        assert(r@ =~= hci_adv_data_flags_only());
        r
    }
}

/// The `hcitool` arguments that set the advertising parameters.
pub fn hci_adv_params_args() -> (r: Vec<&'static str>)
    ensures
        r@ == seq![
            "cmd", "0x08", "0x0006", "00", "08", "00", "08", "00", "00", "00", "00", "00", "00",
            "00", "00", "07", "00",
        ],
{
    let r = vec![
        "cmd", "0x08", "0x0006", "00", "08", "00", "08", "00", "00", "00", "00", "00", "00", "00",
        "00", "07", "00",
    ];
    assert(r@ =~= seq![
        "cmd", "0x08", "0x0006", "00", "08", "00", "08", "00", "00", "00", "00", "00", "00",
        "00", "00", "07", "00",
    ]);
    r
}

/// The `hcitool` arguments that switch advertising on or off.
pub fn hci_adv_enable_args(enable: bool) -> (r: Vec<&'static str>)
    ensures
        enable ==> r@ == seq!["cmd", "0x08", "0x000A", "01"],
        !enable ==> r@ == seq!["cmd", "0x08", "0x000A", "00"],
{
    if enable {
        let r = vec!["cmd", "0x08", "0x000A", "01"];
        assert(r@ =~= seq!["cmd", "0x08", "0x000A", "01"]);
        r
    } else {
        let r = vec!["cmd", "0x08", "0x000A", "00"];
        assert(r@ =~= seq!["cmd", "0x08", "0x000A", "00"]);
        r
    }
}

/// A command-complete reply line of `hcitool` for the advertising commands
/// (`01 0A 20 00`, `01 08 20 00` or `01 06 20 00`).
pub open spec fn hci_ok_reply(t: Seq<char>) -> bool {
    t.len() == 11 && t[0] == '0' && t[1] == '1' && t[2] == ' ' && t[3] == '0' && (t[4] == 'A'
        || t[4] == '8' || t[4] == '6') && t[5] == ' ' && t[6] == '2' && t[7] == '0' && t[8] == ' '
        && t[9] == '0' && t[10] == '0'
}

fn hci_ok_reply_exec(t: &[char]) -> (r: bool)
    ensures
        r == hci_ok_reply(t@),
{
    t.len() == 11 && t[0] == '0' && t[1] == '1' && t[2] == ' ' && t[3] == '0' && (t[4] == 'A' || t[4]
        == '8' || t[4] == '6') && t[5] == ' ' && t[6] == '2' && t[7] == '0' && t[8] == ' ' && t[9]
        == '0' && t[10] == '0'
}

/// Whether the output of `hcitool` holds, on a line of its own (spaces
/// around it aside), the success reply of an advertising command.
pub fn hci_command_succeeded(stdout: &[u8]) -> (r: bool)
    ensures
        r == exists|i: int|
            0 <= i < lines_of(lossy_utf8(stdout@)).len() && #[trigger] hci_ok_reply(
                trim(lines_of(lossy_utf8(stdout@))[i]),
            ),
{
    let text = from_utf8_lossy(stdout);
    let s = chars_of(text.as_str());
    let lines = lines_chars(s.as_slice());
    let ghost ls = char_lines(lines@);
    let mut i: usize = 0;
    while i < lines.len()
        invariant
            i <= lines@.len(),
            ls == char_lines(lines@),
            ls == lines_of(lossy_utf8(stdout@)),
            forall|j: int| 0 <= j < i ==> !#[trigger] hci_ok_reply(trim(ls[j])),
        decreases lines@.len() - i,
    {
        let t = trim_chars(lines[i].as_slice());
        assert(ls[i as int] == lines@[i as int]@);
        if hci_ok_reply_exec(t.as_slice()) {
            return true;
        }
        i = i + 1;
    }
    false
}

/// The advertising data for the management command: the 128-bit service
/// UUID for the service's own id, else nothing.
pub open spec fn mgmt_adv_data_of(service_uuid: Seq<char>) -> Seq<u8> {
    if service_uuid == SERVICE_ID@ {
        seq![
            0x11u8, 0x07, 0x00, 0x00, 0x7A, 0xE7, 0x0B, 0xEB, 0x2F, 0xA6, 0x15, 0x4A, 0x0F, 0xAA,
            0x48, 0x44, 0x2B, 0xFD,
        ]
    } else {
        seq![]
    }
}

/// The advertising data for the management command.
pub fn mgmt_service_uuid_adv_data(service_uuid: &str) -> (r: Vec<u8>)
    ensures
        r@ == mgmt_adv_data_of(service_uuid@),
{
    let a = chars_of(service_uuid);
    let b = chars_of(SERVICE_ID);
    if chars_eq(a.as_slice(), b.as_slice()) {
        let r: Vec<u8> = vec![
            0x11u8, 0x07, 0x00, 0x00, 0x7A, 0xE7, 0x0B, 0xEB, 0x2F, 0xA6, 0x15, 0x4A, 0x0F, 0xAA,
            0x48, 0x44, 0x2B, 0xFD,
        ];
        assert(r@ =~= mgmt_adv_data_of(service_uuid@));
        r
    } else {
        Vec::new()
    }
}

/// The largest character boundary of `bytes` at or below `e`.
pub open spec fn last_boundary(bytes: Seq<u8>, e: int) -> int
    decreases e,
{
    if e <= 0 {
        0
    } else if is_char_boundary(bytes, e) {
        e
    } else {
        last_boundary(bytes, e - 1)
    }
}

/// Where a string of these bytes is cut to hold at most `max` bytes
/// without splitting a character.
pub open spec fn truncate_point(bytes: Seq<u8>, max: int) -> int {
    if bytes.len() <= max {
        bytes.len() as int
    } else {
        last_boundary(bytes, max)
    }
}

pub proof fn lemma_last_boundary(bytes: Seq<u8>, e: int)
    requires
        0 <= e,
    ensures
        0 <= last_boundary(bytes, e) <= e,
    decreases e,
{
    if e > 0 && !is_char_boundary(bytes, e) {
        lemma_last_boundary(bytes, e - 1);
    }
}

/// The longest prefix of `value` of at most `max_bytes` bytes that ends on
/// a character boundary.
pub fn truncate_utf8(value: &str, max_bytes: usize) -> (r: &str)
    ensures
        encode_utf8(r@) == encode_utf8(value@).take(truncate_point(encode_utf8(value@), max_bytes as int)),
{
    proof {
        encode_utf8_valid_utf8(value@);
        is_char_boundary_start_end_of_seq(encode_utf8(value@));
    }
    if value.as_bytes().len() <= max_bytes {
        assert(encode_utf8(value@).take(encode_utf8(value@).len() as int) =~= encode_utf8(value@));
        return value;
    }
    let ghost bytes = encode_utf8(value@);
    let mut end = max_bytes;
    while !value.is_char_boundary(end)
        invariant
            bytes == encode_utf8(value@),
            valid_utf8(bytes),
            is_char_boundary(bytes, 0),
            end <= max_bytes < bytes.len(),
            truncate_point(bytes, max_bytes as int) == last_boundary(bytes, end as int),
        decreases end,
    {
        end = end - 1;
    }
    let (head, _tail) = value.split_at(end);
    head
}

/// The scan response for a local name: the name, trimmed and cut to 29
/// bytes, as a Complete Local Name field; nothing for an empty name.
pub open spec fn scan_rsp_of(local_name: Seq<char>) -> Seq<u8> {
    let b = encode_utf8(trim(local_name));
    let t = b.take(truncate_point(b, MAX_LOCAL_NAME_BYTES as int));
    if t.len() == 0 {
        seq![]
    } else {
        seq![(t.len() + 1) as u8, 0x09u8] + t
    }
}

/// The scan response carrying the local name.
pub fn mgmt_local_name_scan_rsp(local_name: &str) -> (r: Vec<u8>)
    ensures
        r@ == scan_rsp_of(local_name@),
{
    let c = chars_of(local_name);
    let t = trim_chars(c.as_slice());
    let ts = string_from_chars(t.as_slice());
    let name = truncate_utf8(ts.as_str(), MAX_LOCAL_NAME_BYTES);
    let bytes = name.as_bytes();
    let ghost b = encode_utf8(trim(local_name@));
    proof {
        lemma_last_boundary(b, MAX_LOCAL_NAME_BYTES as int);
    }
    assert(bytes@.len() <= MAX_LOCAL_NAME_BYTES);
    if bytes.len() == 0 {
        return Vec::new();
    }
    let mut data: Vec<u8> = Vec::new();
    data.push((bytes.len() + 1) as u8);
    data.push(0x09u8);
    let mut k: usize = 0;
    while k < bytes.len()
        invariant
            k <= bytes@.len(),
            data@ == seq![(bytes@.len() + 1) as u8, 0x09u8] + bytes@.take(k as int),
        decreases bytes@.len() - k,
    {
        data.push(bytes[k]);
        assert(bytes@.take(k + 1) =~= bytes@.take(k as int).push(bytes@[k as int]));
        k = k + 1;
    }
    assert(bytes@.take(k as int) =~= bytes@);
    data
}

/// Little-endian bytes of a 16-bit value.
pub open spec fn le16(v: u16) -> Seq<u8> {
    seq![(v % 256) as u8, (v / 256) as u8]
}

/// Little-endian bytes of a 32-bit value.
pub open spec fn le32(v: u32) -> Seq<u8> {
    seq![(v % 256) as u8, ((v / 256) % 256) as u8, ((v / 65536) % 256) as u8, (v / 16777216) as u8]
}

/// A management command packet: opcode, controller index and payload
/// length (16 bits each, little-endian), then the payload.
pub open spec fn mgmt_packet(opcode: u16, index: u16, payload: Seq<u8>) -> Seq<u8> {
    le16(opcode) + le16(index) + le16((payload.len() % 65536) as u16) + payload
}

fn push_le16(out: &mut Vec<u8>, v: u16)
    ensures
        final(out)@ == old(out)@ + le16(v),
{
    out.push((v % 256) as u8);
    out.push((v / 256) as u8);
    assert(final(out)@ =~= old(out)@ + le16(v));
}

fn push_le32(out: &mut Vec<u8>, v: u32)
    ensures
        final(out)@ == old(out)@ + le32(v),
{
    out.push((v % 256) as u8);
    out.push(((v / 256) % 256) as u8);
    out.push(((v / 65536) % 256) as u8);
    out.push((v / 16777216) as u8);
    assert(final(out)@ =~= old(out)@ + le32(v));
}

fn push_bytes(out: &mut Vec<u8>, src: &[u8])
    ensures
        final(out)@ == old(out)@ + src@,
{
    let mut k: usize = 0;
    let ghost start = out@;
    while k < src.len()
        invariant
            k <= src@.len(),
            out@ == start + src@.take(k as int),
        decreases src@.len() - k,
    {
        out.push(src[k]);
        assert(src@.take(k + 1) =~= src@.take(k as int).push(src@[k as int]));
        k = k + 1;
    }
    assert(src@.take(k as int) =~= src@);
}

/// The packet of a management command.
pub fn mgmt_command_packet(opcode: u16, index: u16, payload: &[u8]) -> (r: Vec<u8>)
    ensures
        r@ == mgmt_packet(opcode, index, payload@),
{
    let mut packet: Vec<u8> = Vec::new();
    push_le16(&mut packet, opcode);
    push_le16(&mut packet, index);
    push_le16(&mut packet, (payload.len() % 65536) as u16);
    push_bytes(&mut packet, payload);
    assert(packet@ =~= mgmt_packet(opcode, index, payload@));
    packet
}

/// The payload of Add Advertising for instance 1: connectable with managed
/// flags, no duration or timeout, then the advertising data and the scan
/// response with their lengths.
pub open spec fn add_advertising_payload(adv: Seq<u8>, scan_rsp: Seq<u8>) -> Seq<u8> {
    seq![1u8] + le32((MGMT_ADV_FLAG_CONNECTABLE + MGMT_ADV_FLAG_MANAGED_FLAGS) as u32) + le16(0)
        + le16(0) + seq![(adv.len() % 256) as u8, (scan_rsp.len() % 256) as u8] + adv + scan_rsp
}

/// What the sender does when a command fails.
pub enum OnFailure {
    /// Carry on.
    Ignore,
    /// Log a warning and carry on.
    Warn,
    /// Stop and report the error.
    Fail,
}

/// One management command to send and wait for.
pub struct MgmtRequest {
    pub opcode: u16,
    pub packet: Vec<u8>,
    pub on_failure: OnFailure,
}

/// The commands that start advertising through the management socket, in
/// order: remove instance 0 (its failure ignored), make the controller
/// not bondable (its failure only warned about), add the advertisement
/// (its result is the result).
pub fn mgmt_add_advertising(service_uuid: &str, local_name: &str) -> (r: Vec<MgmtRequest>)
    ensures
        r@.len() == 3,
        r@[0].opcode == MGMT_OP_REMOVE_ADVERTISING,
        r@[0].packet@ == mgmt_packet(MGMT_OP_REMOVE_ADVERTISING, MGMT_INDEX, seq![0u8]),
        r@[0].on_failure == OnFailure::Ignore,
        r@[1].opcode == MGMT_OP_SET_BONDABLE,
        r@[1].packet@ == mgmt_packet(MGMT_OP_SET_BONDABLE, MGMT_INDEX, seq![0u8]),
        r@[1].on_failure == OnFailure::Warn,
        r@[2].opcode == MGMT_OP_ADD_ADVERTISING,
        r@[2].packet@ == mgmt_packet(
            MGMT_OP_ADD_ADVERTISING,
            MGMT_INDEX,
            add_advertising_payload(mgmt_adv_data_of(service_uuid@), scan_rsp_of(local_name@)),
        ),
        r@[2].on_failure == OnFailure::Fail,
{
    let zero: Vec<u8> = vec![0u8];
    assert(zero@ =~= seq![0u8]);
    let remove = MgmtRequest {
        opcode: MGMT_OP_REMOVE_ADVERTISING,
        packet: mgmt_command_packet(MGMT_OP_REMOVE_ADVERTISING, MGMT_INDEX, zero.as_slice()),
        on_failure: OnFailure::Ignore,
    };
    let bondable = MgmtRequest {
        opcode: MGMT_OP_SET_BONDABLE,
        packet: mgmt_command_packet(MGMT_OP_SET_BONDABLE, MGMT_INDEX, zero.as_slice()),
        on_failure: OnFailure::Warn,
    };
    let adv = mgmt_service_uuid_adv_data(service_uuid);
    let scan = mgmt_local_name_scan_rsp(local_name);
    let mut payload: Vec<u8> = Vec::new();
    payload.push(1u8);
    push_le32(&mut payload, MGMT_ADV_FLAG_CONNECTABLE + MGMT_ADV_FLAG_MANAGED_FLAGS);
    push_le16(&mut payload, 0);
    push_le16(&mut payload, 0);
    payload.push((adv.len() % 256) as u8);
    payload.push((scan.len() % 256) as u8);
    push_bytes(&mut payload, adv.as_slice());
    push_bytes(&mut payload, scan.as_slice());
    assert(payload@ =~= add_advertising_payload(adv@, scan@));
    let add = MgmtRequest {
        opcode: MGMT_OP_ADD_ADVERTISING,
        packet: mgmt_command_packet(MGMT_OP_ADD_ADVERTISING, MGMT_INDEX, payload.as_slice()),
        on_failure: OnFailure::Fail,
    };
    let mut r: Vec<MgmtRequest> = Vec::new();
    r.push(remove);
    r.push(bondable);
    r.push(add);
    r
}

/// The command that removes an advertising instance; its result is the result.
pub fn mgmt_remove_advertising(instance: u8) -> (r: MgmtRequest)
    ensures
        r.opcode == MGMT_OP_REMOVE_ADVERTISING,
        r.packet@ == mgmt_packet(MGMT_OP_REMOVE_ADVERTISING, MGMT_INDEX, seq![instance]),
        r.on_failure == OnFailure::Fail,
{
    let payload: Vec<u8> = vec![instance];
    assert(payload@ =~= seq![instance]);
    MgmtRequest {
        opcode: MGMT_OP_REMOVE_ADVERTISING,
        packet: mgmt_command_packet(MGMT_OP_REMOVE_ADVERTISING, MGMT_INDEX, payload.as_slice()),
        on_failure: OnFailure::Fail,
    }
}

/// What a received management event says about the command waited for.
pub enum MgmtVerdict {
    /// Not the reply awaited: keep reading.
    Pending,
    /// The command succeeded.
    Succeeded,
    /// The command failed with this status.
    Failed { status: u8 },
}

/// The 16-bit little-endian value at `i`.
pub open spec fn le16_at(b: Seq<u8>, i: int) -> int {
    b[i] + 256 * b[i + 1]
}

/// The reading of one event received while waiting for `opcode`: short
/// events, events of another controller and truncated ones are skipped;
/// a Command Complete or Command Status for `opcode` decides, removing
/// an absent instance counting as success.
pub open spec fn mgmt_verdict(ev: Seq<u8>, opcode: u16) -> MgmtVerdict {
    if ev.len() < 9 {
        MgmtVerdict::Pending
    } else if le16_at(ev, 2) != MGMT_INDEX || 6 + le16_at(ev, 4) > ev.len() {
        MgmtVerdict::Pending
    } else if le16_at(ev, 0) == MGMT_EV_CMD_COMPLETE || le16_at(ev, 0) == MGMT_EV_CMD_STATUS {
        if le16_at(ev, 6) != opcode {
            MgmtVerdict::Pending
        } else if ev[8] == MGMT_STATUS_SUCCESS {
            MgmtVerdict::Succeeded
        } else if opcode == MGMT_OP_REMOVE_ADVERTISING && ev[8] == MGMT_STATUS_INVALID_PARAMS {
            MgmtVerdict::Succeeded
        } else {
            MgmtVerdict::Failed { status: ev[8] }
        }
    } else {
        MgmtVerdict::Pending
    }
}

fn le16_at_exec(b: &[u8], i: usize) -> (r: u16)
    requires
        i + 1 < b@.len(),
    ensures
        r == le16_at(b@, i as int),
{
    b[i] as u16 + (b[i + 1] as u16) * 256
}

/// Reads one event received from the management socket.
pub fn mgmt_event_verdict(event: &[u8], opcode: u16) -> (r: MgmtVerdict)
    ensures
        r == mgmt_verdict(event@, opcode),
{
    if event.len() < 9 {
        return MgmtVerdict::Pending;
    }
    let ev = le16_at_exec(event, 0);
    let index = le16_at_exec(event, 2);
    let len = le16_at_exec(event, 4);
    if index != MGMT_INDEX || 6 + (len as usize) > event.len() {
        return MgmtVerdict::Pending;
    }
    if ev == MGMT_EV_CMD_COMPLETE || ev == MGMT_EV_CMD_STATUS {
        let ev_opcode = le16_at_exec(event, 6);
        let status = event[8];
        if ev_opcode != opcode {
            MgmtVerdict::Pending
        } else if status == MGMT_STATUS_SUCCESS {
            MgmtVerdict::Succeeded
        } else if opcode == MGMT_OP_REMOVE_ADVERTISING && status == MGMT_STATUS_INVALID_PARAMS {
            MgmtVerdict::Succeeded
        } else {
            MgmtVerdict::Failed { status }
        }
    } else {
        MgmtVerdict::Pending
    }
}

/// The error text for a failed command:
/// `MGMT opcode 0x{opcode:04x} failed with status 0x{status:02x}`.
pub open spec fn mgmt_failure_text(opcode: u16, status: u8) -> Seq<char> {
    "MGMT opcode 0x"@ + pad_left(lower_hex(opcode as nat), '0', 4) + " failed with status 0x"@
        + pad_left(lower_hex(status as nat), '0', 2)
}

/// The error text for a failed command.
pub fn mgmt_failure_message(opcode: u16, status: u8) -> (r: String)
    ensures
        r@ == mgmt_failure_text(opcode, status),
{
    let mut op_digits: Vec<char> = Vec::new();
    push_radix_digits(opcode as u64, 16, &mut op_digits);
    let op = pad_digits_left(&op_digits, '0', 4);
    let mut st_digits: Vec<char> = Vec::new();
    push_radix_digits(status as u64, 16, &mut st_digits);
    let st = pad_digits_left(&st_digits, '0', 2);
    let mut r = String::from_str("MGMT opcode 0x");
    let ops = string_from_chars(op.as_slice());
    r.append(ops.as_str());
    r.append(" failed with status 0x");
    let sts = string_from_chars(st.as_slice());
    r.append(sts.as_str());
    r
}

proof fn lemma_last_boundary_is_largest(bytes: Seq<u8>, e: int)
    requires
        0 <= e,
        vstd::utf8::valid_utf8(bytes),
    ensures
        0 <= last_boundary(bytes, e) <= e,
        is_char_boundary(bytes, last_boundary(bytes, e)),
        forall|x: int| last_boundary(bytes, e) < x <= e ==> !#[trigger] is_char_boundary(bytes, x),
    decreases e,
{
    is_char_boundary_start_end_of_seq(bytes);
    if e > 0 && !is_char_boundary(bytes, e) {
        lemma_last_boundary_is_largest(bytes, e - 1);
    }
}

/// `truncate_utf8` keeps the longest start of the text that fits in
/// `max_bytes` bytes and does not split a character: the kept bytes are a
/// start of the text's bytes ending on a character boundary, all of the
/// text when it fits, else at most `max_bytes` long, and no longer start up
/// to `max_bytes` ends on a boundary.
pub proof fn law_truncate_keeps_longest_whole_prefix(value: Seq<char>, max_bytes: nat)
    ensures
        ({
            let b = encode_utf8(value);
            let t = truncate_point(b, max_bytes as int);
            &&& 0 <= t <= b.len()
            &&& b.len() <= max_bytes ==> t == b.len()
            &&& b.len() > max_bytes ==> t <= max_bytes
            &&& is_char_boundary(b, t)
            &&& forall|x: int| t < x <= b.len() && x <= max_bytes ==> !#[trigger] is_char_boundary(b, x)
        }),
{
    let b = encode_utf8(value);
    encode_utf8_valid_utf8(value);
    is_char_boundary_start_end_of_seq(b);
    if b.len() > max_bytes {
        lemma_last_boundary_is_largest(b, max_bytes as int);
    }
}

/// A management command packet reads back as what it was built from: its
/// first three little-endian 16-bit words are the opcode, the controller
/// index and the payload's length, and the payload follows.
pub proof fn law_mgmt_packet_reads_back(opcode: u16, index: u16, payload: Seq<u8>)
    requires
        payload.len() < 65536,
    ensures
        mgmt_packet(opcode, index, payload).len() == 6 + payload.len(),
        le16_at(mgmt_packet(opcode, index, payload), 0) == opcode,
        le16_at(mgmt_packet(opcode, index, payload), 2) == index,
        le16_at(mgmt_packet(opcode, index, payload), 4) == payload.len(),
        mgmt_packet(opcode, index, payload).skip(6) == payload,
{
    let p = mgmt_packet(opcode, index, payload);
    let n = (payload.len() % 65536) as u16;
    assert(n == payload.len());
    assert(p[0] == (opcode % 256) as u8 && p[1] == (opcode / 256) as u8);
    assert(p[2] == (index % 256) as u8 && p[3] == (index / 256) as u8);
    assert(p[4] == (n % 256) as u8 && p[5] == (n / 256) as u8);
    assert(p.skip(6) =~= payload);
}

/// A 32-bit value's little-endian bytes read back as the value.
pub proof fn law_le32_reads_back(v: u32)
    ensures
        le32(v)[0] + 256 * le32(v)[1] + 65536 * le32(v)[2] + 16777216 * le32(v)[3] == v,
{
    assert(v == (v % 256) + 256 * ((v / 256) % 256) + 65536 * ((v / 65536) % 256) + 16777216 * (v / 16777216))
        by (nonlinear_arith);
}

} // verus!
