//! The SSH-over-BLE tunnel: the control protocol on the device side
//! (`CONNECT` / `DISCONNECT`, answered by `OK`, `ERR:...` and `CLOSED`), and
//! on the client side the reading of those answers, the wait for the SSH
//! banner and the choice between a direct TCP route and the BLE tunnel.
use vstd::prelude::*;
use crate::text::{
    occurs_at, occurs_at_exec, chars_of, chars_eq, string_from_chars, from_utf8_lossy, lossy_utf8,
};
use crate::lines::{trim, trim_chars, starts_with, starts_with_chars};
use crate::scan::copy_chars;
use crate::protocol::{chunks_of, views_of, split_chunks};

verus! {

/// Largest piece of tunnel data sent in one BLE write or notification.
pub const TUNNEL_CHUNK: usize = 512;

/// A command written to the control characteristic.
#[derive(PartialEq, Eq, Structural)]
pub enum CtrlCommand {
    Connect,
    Disconnect,
    Unknown,
}

/// The command a control write names, once decoded and trimmed.
pub open spec fn ctrl_command_of(text: Seq<char>) -> CtrlCommand {
    if trim(text) == "CONNECT"@ {
        CtrlCommand::Connect
    } else if trim(text) == "DISCONNECT"@ {
        CtrlCommand::Disconnect
    } else {
        CtrlCommand::Unknown
    }
}

/// Reads a write to the control characteristic.
pub fn parse_ctrl_command(data: &[u8]) -> (r: CtrlCommand)
    ensures
        r == ctrl_command_of(lossy_utf8(data@)),
{
    let text = from_utf8_lossy(data);
    let c = chars_of(text.as_str());
    let t = trim_chars(c.as_slice());
    let connect = chars_of("CONNECT");
    let disconnect = chars_of("DISCONNECT");
    if chars_eq(t.as_slice(), connect.as_slice()) {
        CtrlCommand::Connect
    } else if chars_eq(t.as_slice(), disconnect.as_slice()) {
        CtrlCommand::Disconnect
    } else {
        CtrlCommand::Unknown
    }
}

/// The notification is this text.
pub open spec fn notifies(n: Option<String>, text: Seq<char>) -> bool {
    n is Some && n->0@ == text
}

/// What happens to the device side of the tunnel.
pub enum TunnelEvent {
    /// A control command arrived.
    Command { cmd: CtrlCommand },
    /// The connection to the local sshd was made.
    SshdConnected,
    /// The connection to the local sshd could not be made.
    SshdConnectFailed { error: String },
    /// sshd closed the connection.
    SshdClosed,
    /// Reading from sshd failed.
    SshdReadFailed { error: String },
    /// Writing to sshd failed.
    SshdWriteFailed { error: String },
}

/// What the device does in answer to an event.
pub struct TunnelReaction {
    /// Shut down the current sshd connection, if there is one.
    pub drop_connection: bool,
    /// Connect to the local sshd.
    pub dial_sshd: bool,
    /// The text to notify on the control characteristic.
    pub notify: Option<String>,
}

/// The device side of the tunnel: whether data written by the client has a
/// sshd connection to go to.
pub struct SshTunnel {
    pub linked: bool,
}

impl SshTunnel {
    pub fn new() -> (t: SshTunnel)
        ensures
            !t.linked,
    {
        SshTunnel { linked: false }
    }

    /// The reaction to an event:
    /// - `CONNECT` drops any connection and dials sshd; a connection made
    ///   links the tunnel and answers `OK`, a failed one answers `ERR:` and
    ///   the error;
    /// - `DISCONNECT` drops the connection and answers `CLOSED`;
    /// - an unknown command changes nothing;
    /// - sshd closing the connection answers `CLOSED`, a read error
    ///   answers `ERR:` and the error; a write error does too and unlinks.
    pub fn handle(&mut self, ev: TunnelEvent) -> (r: TunnelReaction)
        ensures
            ev matches TunnelEvent::Command { cmd } ==> (match cmd {
                CtrlCommand::Connect => r.drop_connection && r.dial_sshd && r.notify is None
                    && !final(self).linked,
                CtrlCommand::Disconnect => r.drop_connection && !r.dial_sshd && notifies(r.notify, "CLOSED"@) && !final(self).linked,
                CtrlCommand::Unknown => !r.drop_connection && !r.dial_sshd && r.notify is None
                    && final(self).linked == old(self).linked,
            }),
            ev matches TunnelEvent::SshdConnected ==> !r.drop_connection && !r.dial_sshd
                && notifies(r.notify, "OK"@) && final(self).linked,
            ev matches TunnelEvent::SshdConnectFailed { error } ==> !r.drop_connection
                && !r.dial_sshd && notifies(r.notify, "ERR:"@ + error@)
                && final(self).linked == old(self).linked,
            ev matches TunnelEvent::SshdClosed ==> !r.drop_connection && !r.dial_sshd
                && notifies(r.notify, "CLOSED"@) && final(self).linked
                == old(self).linked,
            ev matches TunnelEvent::SshdReadFailed { error } ==> !r.drop_connection
                && !r.dial_sshd && notifies(r.notify, "ERR:"@ + error@)
                && final(self).linked == old(self).linked,
            ev matches TunnelEvent::SshdWriteFailed { error } ==> !r.drop_connection
                && !r.dial_sshd && notifies(r.notify, "ERR:"@ + error@)
                && !final(self).linked,
    {
        match ev {
            TunnelEvent::Command { cmd } => match cmd {
                CtrlCommand::Connect => {
                    self.linked = false;
                    TunnelReaction { drop_connection: true, dial_sshd: true, notify: None }
                },
                CtrlCommand::Disconnect => {
                    self.linked = false;
                    TunnelReaction {
                        drop_connection: true,
                        dial_sshd: false,
                        notify: Some(String::from_str("CLOSED")),
                    }
                },
                CtrlCommand::Unknown => TunnelReaction {
                    drop_connection: false,
                    dial_sshd: false,
                    notify: None,
                },
            },
            TunnelEvent::SshdConnected => {
                self.linked = true;
                TunnelReaction {
                    drop_connection: false,
                    dial_sshd: false,
                    notify: Some(String::from_str("OK")),
                }
            },
            TunnelEvent::SshdConnectFailed { error } => TunnelReaction {
                drop_connection: false,
                dial_sshd: false,
                notify: Some(error_reply(error.as_str())),
            },
            TunnelEvent::SshdClosed => TunnelReaction {
                drop_connection: false,
                dial_sshd: false,
                notify: Some(String::from_str("CLOSED")),
            },
            TunnelEvent::SshdReadFailed { error } => TunnelReaction {
                drop_connection: false,
                dial_sshd: false,
                notify: Some(error_reply(error.as_str())),
            },
            TunnelEvent::SshdWriteFailed { error } => {
                self.linked = false;
                TunnelReaction {
                    drop_connection: false,
                    dial_sshd: false,
                    notify: Some(error_reply(error.as_str())),
                }
            },
        }
    }
}

/// `ERR:` followed by the error.
fn error_reply(error: &str) -> (r: String)
    ensures
        r@ == "ERR:"@ + error@,
{
    let mut r = String::from_str("ERR:");
    r.append(error);
    r
}

/// Tunnel data cut into the pieces sent one by one (none for empty data).
pub fn tunnel_chunks(data: &[u8]) -> (r: Vec<Vec<u8>>)
    ensures
        views_of(r@) == chunks_of(data@, TUNNEL_CHUNK as nat),
{
    split_chunks(data, TUNNEL_CHUNK)
}

/// How the client reads a control notification while opening the tunnel.
pub enum ConnectReply {
    /// `OK`: the tunnel is open.
    Opened,
    /// `ERR:...`: the device refused; the error reported.
    Refused { message: String },
    /// Anything else: keep waiting.
    Other,
}

/// The reading of a control notification while waiting for `CONNECT`'s answer.
pub fn connect_reply(msg: &str) -> (r: ConnectReply)
    ensures
        msg@ == "OK"@ ==> r is Opened,
        msg@ != "OK"@ && starts_with(msg@, "ERR:"@) ==> r is Refused
            && r->message@ == "Server: "@ + msg@,
        msg@ != "OK"@ && !starts_with(msg@, "ERR:"@) ==> r is Other,
{
    let m = chars_of(msg);
    let ok = chars_of("OK");
    let err = chars_of("ERR:");
    if chars_eq(m.as_slice(), ok.as_slice()) {
        ConnectReply::Opened
    } else if starts_with_chars(m.as_slice(), err.as_slice()) {
        let mut message = String::from_str("Server: ");
        message.append(msg);
        ConnectReply::Refused { message }
    } else {
        ConnectReply::Other
    }
}

/// Whether a control notification is the answer to `DISCONNECT`.
pub fn is_closed_reply(msg: &str) -> (r: bool)
    ensures
        r == (msg@ == "CLOSED"@),
{
    let m = chars_of(msg);
    let c = chars_of("CLOSED");
    chars_eq(m.as_slice(), c.as_slice())
}

/// `SSH-` in ASCII.
pub open spec fn ssh_banner_prefix() -> Seq<u8> {
    seq![83u8, 83u8, 72u8, 45u8]
}

/// Whether received data begins the SSH version exchange (`SSH-`).
pub fn is_ssh_banner(data: &[u8]) -> (r: bool)
    ensures
        r == (data@.len() >= 4 && data@.take(4) == ssh_banner_prefix()),
{
    if data.len() < 4 {
        return false;
    }
    let r = data[0] == 83u8 && data[1] == 83u8 && data[2] == 72u8 && data[3] == 45u8;
    proof {
        if r {
            assert(data@.take(4) =~= ssh_banner_prefix());
        } else {
            if data@.take(4) == ssh_banner_prefix() {
                assert(data@.take(4)[0] == data@[0]);
                assert(data@.take(4)[1] == data@[1]);
                assert(data@.take(4)[2] == data@[2]);
                assert(data@.take(4)[3] == data@[3]);
            }
        }
    }
    r
}

/// Attempts at opening the tunnel before giving up on the banner.
pub const BANNER_ATTEMPTS: u32 = 5;

/// What came of waiting for the banner after opening the tunnel.
pub enum BannerOutcome {
    /// Data arrived.
    Data { bytes: Vec<u8> },
    /// The data channel closed.
    ChannelClosed,
    /// Nothing arrived in time.
    TimedOut,
}

/// What the client does next.
pub enum BannerAction {
    /// The banner arrived: hand it to the SSH client and start bridging.
    Deliver { banner: Vec<u8> },
    /// Other data arrived: drain what follows, close the tunnel, retry.
    DrainAndClose,
    /// Nothing usable: close the tunnel and retry.
    Close,
}

/// The wait for the SSH banner, over at most five openings of the tunnel.
pub struct BannerWait {
    pub attempts: u32,
    pub delivered: bool,
}

impl BannerWait {
    pub fn new() -> (w: BannerWait)
        ensures
            w.attempts == 0,
            !w.delivered,
    {
        BannerWait { attempts: 0, delivered: false }
    }

    /// Whether to open the tunnel (again).
    pub fn wants_attempt(&self) -> (r: bool)
        ensures
            r == (!self.delivered && self.attempts < BANNER_ATTEMPTS),
    {
        !self.delivered && self.attempts < BANNER_ATTEMPTS
    }

    /// Records the outcome of one attempt.
    pub fn record(&mut self, outcome: BannerOutcome) -> (a: BannerAction)
        requires
            !old(self).delivered,
            old(self).attempts < BANNER_ATTEMPTS,
        ensures
            final(self).attempts == old(self).attempts + 1,
            outcome matches BannerOutcome::Data { bytes } ==> (if bytes@.len() >= 4 && bytes@.take(4)
                == ssh_banner_prefix() {
                a matches BannerAction::Deliver { banner } && banner@ == bytes@ && final(self).delivered
            } else {
                a is DrainAndClose && !final(self).delivered
            }),
            outcome is ChannelClosed ==> a is Close && !final(self).delivered,
            outcome is TimedOut ==> a is Close && !final(self).delivered,
    {
        self.attempts = self.attempts + 1;
        match outcome {
            BannerOutcome::Data { bytes } => {
                if is_ssh_banner(bytes.as_slice()) {
                    self.delivered = true;
                    BannerAction::Deliver { banner: bytes }
                } else {
                    BannerAction::DrainAndClose
                }
            },
            BannerOutcome::ChannelClosed => BannerAction::Close,
            BannerOutcome::TimedOut => BannerAction::Close,
        }
    }

    /// The error when every attempt failed.
    pub fn exhausted_message(&self) -> (r: String)
        ensures
            r@ == "Failed to receive SSH banner after 5 attempts"@,
    {
        String::from_str("Failed to receive SSH banner after 5 attempts")
    }
}

/// The index of the first occurrence of `p` in `s` at or after `from`.
pub open spec fn first_occurrence(s: Seq<char>, p: Seq<char>, from: int) -> Option<int>
    decreases s.len() + 1 - from,
{
    if from < 0 || from > s.len() {
        None
    } else if occurs_at(s, p, from) {
        Some(from)
    } else {
        first_occurrence(s, p, from + 1)
    }
}

/// ` [`
pub open spec fn name_tag_open() -> Seq<char> {
    seq![' ', '[']
}

/// The name shown for a device: its advertised name up to a ` [` suffix
/// (`cm5 [pisugar]` is shown as `cm5`).
pub open spec fn display_name_of(raw: Seq<char>) -> Seq<char> {
    match first_occurrence(raw, name_tag_open(), 0) {
        Some(i) => raw.take(i),
        None => raw,
    }
}

/// The name shown for a device.
pub fn device_display_name(raw: &str) -> (r: String)
    ensures
        r@ == display_name_of(raw@),
{
    let s = chars_of(raw);
    let tag = vec![' ', '['];
    assert(tag@ =~= name_tag_open());
    let mut pos: usize = 0;
    while pos < s.len()
        invariant
            pos <= s@.len(),
            s@ == raw@,
            tag@ == name_tag_open(),
            first_occurrence(s@, tag@, 0) == first_occurrence(s@, tag@, pos as int),
        decreases s@.len() - pos,
    {
        if occurs_at_exec(s.as_slice(), tag.as_slice(), pos) {
            let t = copy_chars(s.as_slice(), 0, pos);
            assert(t@ =~= s@.take(pos as int));
            return string_from_chars(t.as_slice());
        }
        pos = pos + 1;
    }
    assert(!occurs_at(s@, tag@, pos as int));
    assert(first_occurrence(s@, tag@, pos + 1) is None);
    string_from_chars(s.as_slice())
}

/// The user name read from the device's username characteristic: the
/// decoded, trimmed text, if not empty.
pub fn username_from_read(data: &[u8]) -> (r: Option<String>)
    ensures
        trim(lossy_utf8(data@)).len() > 0 ==> r is Some && r->0@ == trim(lossy_utf8(data@)),
        trim(lossy_utf8(data@)).len() == 0 ==> r is None,
{
    let text = from_utf8_lossy(data);
    let c = chars_of(text.as_str());
    let t = trim_chars(c.as_slice());
    if t.len() == 0 {
        None
    } else {
        Some(string_from_chars(t.as_slice()))
    }
}

/// The SSH address tried first: the device's IP, port 22.
pub fn direct_ssh_addr(ip: &str) -> (r: String)
    ensures
        r@ == ip@ + ":22"@,
{
    let mut r = String::from_str(ip);
    r.append(":22");
    r
}

/// How an incoming SSH connection is carried.
pub enum ProxyRoute {
    /// Straight over TCP to the device's IP.
    Direct,
    /// Through the BLE tunnel.
    Ble,
    /// Neither is available.
    Unroutable,
}

/// The route of a connection: direct when the device's IP answered, else
/// the BLE tunnel when there is one.
pub fn choose_route(ip_reachable: bool, has_tunnel: bool) -> (r: ProxyRoute)
    ensures
        ip_reachable ==> r is Direct,
        !ip_reachable && has_tunnel ==> r is Ble,
        !ip_reachable && !has_tunnel ==> r is Unroutable,
{
    if ip_reachable {
        ProxyRoute::Direct
    } else if has_tunnel {
        ProxyRoute::Ble
    } else {
        ProxyRoute::Unroutable
    }
}

/// The name shown for a device is its advertised name cut before the first
/// ` [`: for `a [b` where no ` [` begins inside `a`, it is `a`; a name
/// without ` [` is shown whole.
pub proof fn law_display_name_cuts_tag(a: Seq<char>, b: Seq<char>, plain: Seq<char>)
    requires
        forall|i: int| 0 <= i < a.len() ==> !occurs_at(a + seq![' ', '['], seq![' ', '['], i),
    ensures
        display_name_of(a + seq![' ', '['] + b) == a,
        (forall|i: int| !occurs_at(plain, seq![' ', '['], i)) ==> display_name_of(plain) == plain,
{
    let tag = name_tag_open();
    assert(tag =~= seq![' ', '[']);
    let s = a + tag + b;
    let n = a.len() as int;
    assert forall|i: int| 0 <= i < n implies !occurs_at(s, tag, i) by {
        if occurs_at(s, tag, i) {
            let at = a + tag;
            assert forall|m: int| 0 <= m < n + 2 implies #[trigger] s[m] == at[m] by {}
            assert(s.subrange(i, i + 2) =~= at.subrange(i, i + 2));
            assert(occurs_at(at, tag, i));
        }
    }
    lemma_first_occurrence_skip(s, tag, 0, n);
    assert(s.subrange(n, n + 2) =~= tag);
    assert(s.take(n) =~= a);
    if forall|i: int| !occurs_at(plain, seq![' ', '['], i) {
        lemma_first_occurrence_skip(plain, tag, 0, plain.len() as int);
        assert(!occurs_at(plain, tag, plain.len() as int));
        assert(first_occurrence(plain, tag, plain.len() as int + 1) is None);
    }
}

proof fn lemma_first_occurrence_skip(s: Seq<char>, p: Seq<char>, from: int, to: int)
    requires
        0 <= from <= to <= s.len(),
        forall|i: int| from <= i < to ==> !occurs_at(s, p, i),
    ensures
        first_occurrence(s, p, from) == first_occurrence(s, p, to),
    decreases to - from,
{
    if from < to {
        lemma_first_occurrence_skip(s, p, from + 1, to);
    }
}

} // verus!
