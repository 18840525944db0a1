//! State of the tray client: the devices found, their tunnels, the title and
//! menu shown for them, and the routing of menu clicks.
use vstd::prelude::*;
use crate::text::{decimal, decimal_string, concat_str, chars_of, string_from_chars};

verus! {

/// From async workers to the UI thread.
#[derive(Debug, Clone)]
pub enum UiMsg {
    DeviceFound { id: String, name: String },
    IpRead { id: String, ip: String },
    SshUser { id: String, user: String },
    Connecting { id: String },
    TunnelUp { id: String, port: u16 },
    TunnelDown { id: String },
    ScanDone,
    Error(String),
}

/// From the UI to the async workers.
pub enum Cmd {
    Scan,
    Connect(String),
    Disconnect(String),
    Quit,
}

/// What the UI knows of one device.
pub struct DeviceInfo {
    pub name: String,
    pub ip: Option<String>,
    pub ssh_user: Option<String>,
    pub connecting: bool,
    pub tunnel_port: Option<u16>,
}

/// The devices found (in discovery order, keyed by device ID) and whether a scan runs.
pub struct AppState {
    pub devices: Vec<(String, DeviceInfo)>,
    pub scanning: bool,
}

/// Index of the first device with the given ID.
#[verifier::opaque]
pub open spec fn device_index(devices: Seq<(String, DeviceInfo)>, id: Seq<char>) -> Option<int> {
    if exists|i: int| 0 <= i < devices.len() && #[trigger] devices[i].0@ == id {
        Some(
            choose|i: int|
                0 <= i < devices.len() && #[trigger] devices[i].0@ == id && forall|j: int|
                    0 <= j < i ==> #[trigger] devices[j].0@ != id,
        )
    } else {
        None
    }
}

/// No two devices share an ID.
pub open spec fn ids_unique(devices: Seq<(String, DeviceInfo)>) -> bool {
    forall|i: int, j: int|
        0 <= i < devices.len() && 0 <= j < devices.len() && i != j ==> #[trigger] devices[i].0@
            != #[trigger] devices[j].0@
}

/// The device's state changed only as `f` says; every other device is kept.
pub open spec fn changed_only(
    old_devices: Seq<(String, DeviceInfo)>,
    new_devices: Seq<(String, DeviceInfo)>,
    i: int,
) -> bool {
    &&& new_devices.len() == old_devices.len()
    &&& forall|j: int| 0 <= j < old_devices.len() && j != i ==> #[trigger] new_devices[j] == old_devices[j]
    &&& new_devices[i].0 == old_devices[i].0
}

/// `i` is the first device with the ID.
pub proof fn lemma_device_index_first(devices: Seq<(String, DeviceInfo)>, id: Seq<char>, i: int)
    requires
        0 <= i < devices.len(),
        devices[i].0@ == id,
        forall|j: int| 0 <= j < i ==> #[trigger] devices[j].0@ != id,
    ensures
        device_index(devices, id) == Some(i),
{
    reveal(device_index);
    let k = choose|k: int|
        0 <= k < devices.len() && #[trigger] devices[k].0@ == id && forall|j: int|
            0 <= j < k ==> #[trigger] devices[j].0@ != id;
    if k < i {
        assert(devices[k].0@ != id);
    }
    if k > i {
        assert(devices[i].0@ != id);
    }
}

/// No device has the ID.
pub proof fn lemma_device_index_none(devices: Seq<(String, DeviceInfo)>, id: Seq<char>)
    requires
        forall|j: int| 0 <= j < devices.len() ==> #[trigger] devices[j].0@ != id,
    ensures
        device_index(devices, id) is None,
{
    reveal(device_index);
}

/// Updating an entry without changing its ID keeps IDs unique.
proof fn lemma_unique_update(s: Seq<(String, DeviceInfo)>, i: int, x: (String, DeviceInfo))
    requires
        0 <= i < s.len(),
        x.0 == s[i].0,
        ids_unique(s),
    ensures
        ids_unique(s.update(i, x)),
{
    let t = s.update(i, x);
    assert forall|a: int, b: int| 0 <= a < t.len() && 0 <= b < t.len() && a != b implies #[trigger] t[a].0@ != #[trigger] t[b].0@ by {
        assert(t[a].0 == s[a].0 && t[b].0 == s[b].0);
    }
}

/// Appending an entry with a new ID keeps IDs unique.
proof fn lemma_unique_push(s: Seq<(String, DeviceInfo)>, x: (String, DeviceInfo))
    requires
        ids_unique(s),
        forall|j: int| 0 <= j < s.len() ==> #[trigger] s[j].0@ != x.0@,
    ensures
        ids_unique(s.push(x)),
{
    let t = s.push(x);
    assert forall|a: int, b: int| 0 <= a < t.len() && 0 <= b < t.len() && a != b implies #[trigger] t[a].0@ != #[trigger] t[b].0@ by {
        if a < s.len() && b < s.len() {
            assert(t[a] == s[a] && t[b] == s[b]);
        } else if a < s.len() {
            assert(t[a] == s[a]);
        } else {
            assert(t[b] == s[b]);
        }
    }
}

/// Removing and re-inserting at the same index updates that index.
proof fn lemma_remove_insert(s: Seq<(String, DeviceInfo)>, i: int, x: (String, DeviceInfo))
    requires
        0 <= i < s.len(),
    ensures
        s.remove(i).insert(i, x) == s.update(i, x),
{
    assert(s.remove(i).insert(i, x) =~= s.update(i, x));
}

impl AppState {
    /// Scanning, with no device known yet.
    pub fn new() -> (s: AppState)
        ensures
            s.devices@.len() == 0,
            s.scanning,
    {
        AppState { devices: Vec::new(), scanning: true }
    }

    /// Index of the first device with `id`.
    pub fn find(&self, id: &String) -> (r: Option<usize>)
        ensures
            r matches Some(i) ==> i < self.devices@.len() && self.devices@[i as int].0@ == id@
                && self.find_spec(id@) == Some(i as int),
            r is None ==> self.find_spec(id@) is None,
            r is None ==> forall|j: int| 0 <= j < self.devices@.len() ==> #[trigger] self.devices@[j].0@ != id@,
    {
        let mut i: usize = 0;
        while i < self.devices.len()
            invariant
                i <= self.devices@.len(),
                forall|j: int| 0 <= j < i ==> #[trigger] self.devices@[j].0@ != id@,
            decreases self.devices@.len() - i,
        {
            if self.devices[i].0 == *id {
                proof {
                    lemma_device_index_first(self.devices@, id@, i as int);
                }
                return Some(i);
            }
            i = i + 1;
        }
        proof {
            lemma_device_index_none(self.devices@, id@);
        }
        None
    }

    /// Applies a message from the workers; returns whether the menu must be rebuilt.
    /// A new device is appended; updates go to the first device with the ID;
    /// messages about unknown devices, and errors, change nothing.
    pub fn apply(&mut self, msg: UiMsg) -> (dirty: bool)
        ensures
            match msg {
                UiMsg::DeviceFound { id, name } => match old(self).find_spec(id@) {
                    Some(_) => !dirty && final(self).devices@ == old(self).devices@,
                    None => dirty && final(self).devices@.len() == old(self).devices@.len() + 1
                        && final(self).devices@.drop_last() == old(self).devices@
                        && final(self).devices@.last().0 == id
                        && final(self).devices@.last().1 == (DeviceInfo {
                            name: name,
                            ip: None,
                            ssh_user: None,
                            connecting: false,
                            tunnel_port: None,
                        }),
                },
                UiMsg::IpRead { id, ip } => match old(self).find_spec(id@) {
                    Some(i) => dirty && changed_only(old(self).devices@, final(self).devices@, i)
                        && final(self).devices@[i].1 == (DeviceInfo { ip: Some(ip), ..old(self).devices@[i].1 }),
                    None => !dirty && final(self).devices@ == old(self).devices@,
                },
                UiMsg::SshUser { id, user } => match old(self).find_spec(id@) {
                    Some(i) => dirty && changed_only(old(self).devices@, final(self).devices@, i)
                        && final(self).devices@[i].1 == (DeviceInfo {
                            ssh_user: Some(user),
                            ..old(self).devices@[i].1
                        }),
                    None => !dirty && final(self).devices@ == old(self).devices@,
                },
                UiMsg::Connecting { id } => match old(self).find_spec(id@) {
                    Some(i) => dirty && changed_only(old(self).devices@, final(self).devices@, i)
                        && final(self).devices@[i].1 == (DeviceInfo { connecting: true, ..old(self).devices@[i].1 }),
                    None => !dirty && final(self).devices@ == old(self).devices@,
                },
                UiMsg::TunnelUp { id, port } => match old(self).find_spec(id@) {
                    Some(i) => dirty && changed_only(old(self).devices@, final(self).devices@, i)
                        && final(self).devices@[i].1 == (DeviceInfo {
                            connecting: false,
                            tunnel_port: Some(port),
                            ..old(self).devices@[i].1
                        }),
                    None => !dirty && final(self).devices@ == old(self).devices@,
                },
                UiMsg::TunnelDown { id } => match old(self).find_spec(id@) {
                    Some(i) => dirty && changed_only(old(self).devices@, final(self).devices@, i)
                        && final(self).devices@[i].1 == (DeviceInfo {
                            connecting: false,
                            tunnel_port: None,
                            ..old(self).devices@[i].1
                        }),
                    None => !dirty && final(self).devices@ == old(self).devices@,
                },
                UiMsg::ScanDone => dirty && final(self).devices@ == old(self).devices@,
                UiMsg::Error(_) => !dirty && final(self).devices@ == old(self).devices@,
            },
            ids_unique(old(self).devices@) ==> ids_unique(final(self).devices@),
            msg is ScanDone ==> !final(self).scanning,
            !(msg is ScanDone) ==> final(self).scanning == old(self).scanning,
    {
        match msg {
            UiMsg::DeviceFound { id, name } => {
                match self.find(&id) {
                    Some(_) => false,
                    None => {
                        self.devices.push(
                            (
                                id,
                                DeviceInfo {
                                    name,
                                    ip: None,
                                    ssh_user: None,
                                    connecting: false,
                                    tunnel_port: None,
                                },
                            ),
                        );
                        proof {
                            assert(self.devices@.drop_last() =~= old(self).devices@);
                            if ids_unique(old(self).devices@) {
                                lemma_unique_push(old(self).devices@, self.devices@.last());
                            }
                        }
                        true
                    },
                }
            },
            UiMsg::IpRead { id, ip } => {
                match self.find(&id) {
                    Some(i) => {
                        let (k, mut info) = self.devices.remove(i);
                        info.ip = Some(ip);
                        self.devices.insert(i, (k, info));
                        proof {
                            lemma_remove_insert(old(self).devices@, i as int, self.devices@[i as int]);
                            if ids_unique(old(self).devices@) {
                                lemma_unique_update(old(self).devices@, i as int, self.devices@[i as int]);
                            }
                        }
                        true
                    },
                    None => false,
                }
            },
            UiMsg::SshUser { id, user } => {
                match self.find(&id) {
                    Some(i) => {
                        let (k, mut info) = self.devices.remove(i);
                        info.ssh_user = Some(user);
                        self.devices.insert(i, (k, info));
                        proof {
                            lemma_remove_insert(old(self).devices@, i as int, self.devices@[i as int]);
                            if ids_unique(old(self).devices@) {
                                lemma_unique_update(old(self).devices@, i as int, self.devices@[i as int]);
                            }
                        }
                        true
                    },
                    None => false,
                }
            },
            UiMsg::Connecting { id } => {
                match self.find(&id) {
                    Some(i) => {
                        let (k, mut info) = self.devices.remove(i);
                        info.connecting = true;
                        self.devices.insert(i, (k, info));
                        proof {
                            lemma_remove_insert(old(self).devices@, i as int, self.devices@[i as int]);
                            if ids_unique(old(self).devices@) {
                                lemma_unique_update(old(self).devices@, i as int, self.devices@[i as int]);
                            }
                        }
                        true
                    },
                    None => false,
                }
            },
            UiMsg::TunnelUp { id, port } => {
                match self.find(&id) {
                    Some(i) => {
                        let (k, mut info) = self.devices.remove(i);
                        info.connecting = false;
                        info.tunnel_port = Some(port);
                        self.devices.insert(i, (k, info));
                        proof {
                            lemma_remove_insert(old(self).devices@, i as int, self.devices@[i as int]);
                            if ids_unique(old(self).devices@) {
                                lemma_unique_update(old(self).devices@, i as int, self.devices@[i as int]);
                            }
                        }
                        true
                    },
                    None => false,
                }
            },
            UiMsg::TunnelDown { id } => {
                match self.find(&id) {
                    Some(i) => {
                        let (k, mut info) = self.devices.remove(i);
                        info.connecting = false;
                        info.tunnel_port = None;
                        self.devices.insert(i, (k, info));
                        proof {
                            lemma_remove_insert(old(self).devices@, i as int, self.devices@[i as int]);
                            if ids_unique(old(self).devices@) {
                                lemma_unique_update(old(self).devices@, i as int, self.devices@[i as int]);
                            }
                        }
                        true
                    },
                    None => false,
                }
            },
            UiMsg::ScanDone => {
                self.scanning = false;
                true
            },
            UiMsg::Error(_) => false,
        }
    }

    /// Index of the first device with `id`, as `find` returns it.
    pub open spec fn find_spec(&self, id: Seq<char>) -> Option<int> {
        device_index(self.devices@, id)
    }
}


/// Number of devices with an open tunnel.
pub open spec fn connected_count(devices: Seq<(String, DeviceInfo)>) -> nat
    decreases devices.len(),
{
    if devices.len() == 0 {
        0
    } else {
        connected_count(devices.drop_last()) + if devices.last().1.tunnel_port is Some { 1nat } else { 0nat }
    }
}

/// Some device is connecting.
pub open spec fn any_connecting(devices: Seq<(String, DeviceInfo)>) -> bool {
    exists|i: int| 0 <= i < devices.len() && #[trigger] devices[i].1.connecting
}

/// The tray title: an antenna, the connected/total counts when devices are
/// known, and what is in progress.
pub open spec fn title_text(devices: Seq<(String, DeviceInfo)>, scanning: bool) -> Seq<char> {
    let suffix = if scanning {
        " Scanning\u{2026}"@
    } else if any_connecting(devices) {
        " Connecting\u{2026}"@
    } else {
        ""@
    };
    if devices.len() == 0 {
        "\u{1f4e1}"@ + suffix
    } else {
        "\u{1f4e1} "@ + decimal(connected_count(devices)) + "/"@ + decimal(devices.len()) + suffix
    }
}

/// The title shown in the menu bar.
pub fn tray_title(state: &AppState) -> (s: String)
    requires
        state.devices@.len() < u64::MAX,
    ensures
        s@ == title_text(state.devices@, state.scanning),
{
    let mut connected: u64 = 0;
    let mut has_connecting = false;
    let mut i: usize = 0;
    while i < state.devices.len()
        invariant
            i <= state.devices@.len(),
            state.devices@.len() < u64::MAX,
            connected == connected_count(state.devices@.take(i as int)),
            connected <= i,
            has_connecting == any_connecting(state.devices@.take(i as int)),
        decreases state.devices@.len() - i,
    {
        let ghost pre = state.devices@.take(i as int);
        let ghost post = state.devices@.take(i + 1);
        assert(post.drop_last() =~= pre);
        if state.devices[i].1.tunnel_port.is_some() {
            connected = connected + 1;
        }
        if state.devices[i].1.connecting {
            has_connecting = true;
        }
        proof {
            if any_connecting(post) && !any_connecting(pre) {
                let j = choose|j: int| 0 <= j < post.len() && #[trigger] post[j].1.connecting;
                if j < i {
                    assert(pre[j] == post[j]);
                }
            }
            if any_connecting(pre) {
                let j = choose|j: int| 0 <= j < pre.len() && #[trigger] pre[j].1.connecting;
                assert(post[j] == pre[j]);
            }
            if state.devices@[i as int].1.connecting {
                assert(post[i as int].1.connecting);
            }
        }
        i = i + 1;
    }
    assert(state.devices@.take(i as int) =~= state.devices@);
    let suffix: &str = if state.scanning {
        " Scanning\u{2026}"
    } else if has_connecting {
        " Connecting\u{2026}"
    } else {
        ""
    };
    if state.devices.len() == 0 {
        concat_str("\u{1f4e1}", suffix)
    } else {
        let mut s = String::from_str("\u{1f4e1} ");
        let c = decimal_string(connected);
        s.append(c.as_str());
        s.append("/");
        let t = decimal_string(state.devices.len() as u64);
        s.append(t.as_str());
        s.append(suffix);
        s
    }
}


/// An entry of the tray menu.
pub enum MenuEntry {
    Item { id: String, text: String, enabled: bool },
    Check { id: String, text: String, enabled: bool, checked: bool },
    Submenu { id: String, text: String, enabled: bool, items: Vec<MenuEntry> },
    Separator,
}

/// A menu entry by the texts it holds.
pub enum MenuSpec {
    Item(Seq<char>, Seq<char>, bool),
    Check(Seq<char>, Seq<char>, bool, bool),
    Submenu(Seq<char>, Seq<char>, bool, Seq<MenuSpec>),
    Separator,
}

/// An entry inside a submenu (submenus are one level deep).
pub open spec fn spec_of_leaf(e: MenuEntry) -> MenuSpec {
    match e {
        MenuEntry::Item { id, text, enabled } => MenuSpec::Item(id@, text@, enabled),
        MenuEntry::Check { id, text, enabled, checked } => MenuSpec::Check(id@, text@, enabled, checked),
        MenuEntry::Submenu { id, text, enabled, items } => MenuSpec::Submenu(id@, text@, enabled, seq![]),
        MenuEntry::Separator => MenuSpec::Separator,
    }
}

pub open spec fn spec_of_entry(e: MenuEntry) -> MenuSpec {
    match e {
        MenuEntry::Submenu { id, text, enabled, items } => MenuSpec::Submenu(
            id@,
            text@,
            enabled,
            Seq::new(items@.len(), |i: int| spec_of_leaf(items@[i])),
        ),
        _ => spec_of_leaf(e),
    }
}

pub open spec fn specs_of(entries: Seq<MenuEntry>) -> Seq<MenuSpec> {
    Seq::new(entries.len(), |i: int| spec_of_entry(entries[i]))
}

/// The SSH login shown for a device: its user, else `pi`.
pub open spec fn user_of(info: DeviceInfo) -> Seq<char> {
    match info.ssh_user {
        Some(u) => u@,
        None => "pi"@,
    }
}

/// The order group of a device: connected first, then connecting, then the others.
pub open spec fn group_of(info: DeviceInfo) -> nat {
    if info.tunnel_port is Some {
        0
    } else if info.connecting {
        1
    } else {
        2
    }
}

/// The menu entry of one device.
pub open spec fn device_spec(id: Seq<char>, info: DeviceInfo) -> MenuSpec {
    match info.tunnel_port {
        Some(port) => MenuSpec::Submenu(
            "d:"@ + id,
            "\u{2713} "@ + info.name@ + " \u{2192} "@ + user_of(info) + "@localhost:"@ + decimal(port as nat),
            true,
            seq![
                MenuSpec::Item(
                    "ssh:"@ + id,
                    "Open SSH ("@ + user_of(info) + "@localhost -p "@ + decimal(port as nat) + ")"@,
                    true,
                ),
                MenuSpec::Item("copy:"@ + id, "Copy SSH Command"@, true),
                MenuSpec::Separator,
                MenuSpec::Item("dc:"@ + id, "Disconnect"@, true),
            ],
        ),
        None => if info.connecting {
            MenuSpec::Item("d:"@ + id, info.name@ + " - Connecting..."@, false)
        } else {
            MenuSpec::Check(
                "d:"@ + id,
                match info.ip {
                    Some(ip) => info.name@ + " ("@ + ip@ + ")"@,
                    None => info.name@,
                },
                true,
                false,
            )
        },
    }
}

/// Entries of the devices of one order group, in discovery order.
pub open spec fn group_specs(devices: Seq<(String, DeviceInfo)>, g: nat) -> Seq<MenuSpec>
    decreases devices.len(),
{
    if devices.len() == 0 {
        seq![]
    } else {
        let rest = group_specs(devices.drop_last(), g);
        if group_of(devices.last().1) == g {
            rest.push(device_spec(devices.last().0@, devices.last().1))
        } else {
            rest
        }
    }
}

/// The whole tray menu for a state.
pub open spec fn menu_spec(devices: Seq<(String, DeviceInfo)>, scanning: bool) -> Seq<MenuSpec> {
    let head = if scanning && devices.len() == 0 {
        seq![MenuSpec::Item("_scanning"@, "\u{1f50d} Scanning..."@, false)]
    } else {
        seq![]
    };
    let sep = if devices.len() != 0 { seq![MenuSpec::Separator] } else { seq![] };
    head + sep + group_specs(devices, 0) + group_specs(devices, 1) + group_specs(devices, 2) + seq![
        MenuSpec::Separator,
        MenuSpec::Item("rescan"@, "\u{1f504} Rescan"@, !scanning),
        MenuSpec::Separator,
        MenuSpec::Item("quit"@, "Quit"@, true),
    ]
}

fn item(id: String, text: String, enabled: bool) -> (e: MenuEntry)
    ensures
        spec_of_entry(e) == MenuSpec::Item(id@, text@, enabled),
{
    MenuEntry::Item { id, text, enabled }
}

/// The menu entry of one device.
fn device_entry(id: &String, info: &DeviceInfo) -> (e: MenuEntry)
    ensures
        spec_of_entry(e) == device_spec(id@, *info),
{
    let d_id = concat_str("d:", id.as_str());
    match info.tunnel_port {
        Some(port) => {
            let user: &str = match &info.ssh_user {
                Some(u) => u.as_str(),
                None => "pi",
            };
            let port_text = decimal_string(port as u64);
            let mut text = String::from_str("\u{2713} ");
            text.append(info.name.as_str());
            text.append(" \u{2192} ");
            text.append(user);
            text.append("@localhost:");
            text.append(port_text.as_str());
            let mut ssh_label = String::from_str("Open SSH (");
            ssh_label.append(user);
            ssh_label.append("@localhost -p ");
            ssh_label.append(port_text.as_str());
            ssh_label.append(")");
            let mut items: Vec<MenuEntry> = Vec::new();
            items.push(item(concat_str("ssh:", id.as_str()), ssh_label, true));
            items.push(item(concat_str("copy:", id.as_str()), String::from_str("Copy SSH Command"), true));
            items.push(MenuEntry::Separator);
            items.push(item(concat_str("dc:", id.as_str()), String::from_str("Disconnect"), true));
            let e = MenuEntry::Submenu { id: d_id, text, enabled: true, items };
            proof {
                let want = device_spec(id@, *info);
                let sub = Seq::new(items@.len(), |i: int| spec_of_leaf(items@[i]));
                assert(sub =~= seq![
                    MenuSpec::Item(
                        "ssh:"@ + id@,
                        "Open SSH ("@ + user_of(*info) + "@localhost -p "@ + decimal(port as nat) + ")"@,
                        true,
                    ),
                    MenuSpec::Item("copy:"@ + id@, "Copy SSH Command"@, true),
                    MenuSpec::Separator,
                    MenuSpec::Item("dc:"@ + id@, "Disconnect"@, true),
                ]);
            }
            e
        },
        None => {
            if info.connecting {
                let text = concat_str(info.name.as_str(), " - Connecting...");
                item(d_id, text, false)
            } else {
                let text = match &info.ip {
                    Some(ip) => {
                        let mut t = String::from_str(info.name.as_str());
                        t.append(" (");
                        t.append(ip.as_str());
                        t.append(")");
                        t
                    },
                    None => info.name.clone(),
                };
                MenuEntry::Check { id: d_id, text, enabled: true, checked: false }
            }
        },
    }
}

/// Appends the entries of the devices of order group `g`.
fn push_group(devices: &Vec<(String, DeviceInfo)>, g: u8, out: &mut Vec<MenuEntry>)
    requires
        g <= 2,
    ensures
        specs_of(final(out)@) == specs_of(old(out)@) + group_specs(devices@, g as nat),
{
    let mut i: usize = 0;
    let ghost base = specs_of(out@);
    while i < devices.len()
        invariant
            i <= devices@.len(),
            g <= 2,
            specs_of(out@) == base + group_specs(devices@.take(i as int), g as nat),
        decreases devices@.len() - i,
    {
        let ghost pre = devices@.take(i as int);
        let ghost post = devices@.take(i + 1);
        assert(post.drop_last() =~= pre);
        assert(post.last() == devices@[i as int]);
        let info = &devices[i].1;
        let group: u8 = if info.tunnel_port.is_some() {
            0
        } else if info.connecting {
            1
        } else {
            2
        };
        if group == g {
            let ghost before = out@;
            out.push(device_entry(&devices[i].0, info));
            assert(specs_of(out@) =~= specs_of(before).push(device_spec(devices@[i as int].0@, devices@[i as int].1)));
        }
        i = i + 1;
    }
    assert(devices@.take(i as int) =~= devices@);
}

fn push_all(out: &mut Vec<MenuEntry>, more: Vec<MenuEntry>)
    ensures
        specs_of(final(out)@) == specs_of(old(out)@) + specs_of(more@),
{
    let mut more = more;
    let ghost m = more@;
    let ghost base = specs_of(out@);
    let mut rest: Vec<MenuEntry> = Vec::new();
    // Move the entries in order: reverse into `rest`, then pop back out.
    while more.len() > 0
        invariant
            specs_of(more@) + specs_of(rest@).reverse() == specs_of(m),
        decreases more@.len(),
    {
        let e = more.pop().unwrap();
        let ghost before_more = more@;
        let ghost before_rest = rest@;
        rest.push(e);
        assert(specs_of(rest@).reverse() =~= seq![spec_of_entry(e)] + specs_of(before_rest).reverse());
    }
    assert(specs_of(more@) =~= seq![]);
    while rest.len() > 0
        invariant
            specs_of(out@) + specs_of(rest@).reverse() == base + specs_of(m),
        decreases rest@.len(),
    {
        let ghost before_rest = rest@;
        let e = rest.pop().unwrap();
        let ghost before_out = out@;
        out.push(e);
        assert(specs_of(before_rest).reverse() =~= seq![spec_of_entry(e)] + specs_of(rest@).reverse());
        assert(specs_of(out@) =~= specs_of(before_out).push(spec_of_entry(e)));
    }
    assert(specs_of(rest@).reverse() =~= seq![]);
}

/// The tray menu for the state: scanning note, devices grouped (connected,
/// connecting, others), then Rescan and Quit.
pub fn build_menu(state: &AppState) -> (menu: Vec<MenuEntry>)
    ensures
        specs_of(menu@) == menu_spec(state.devices@, state.scanning),
{
    let mut menu: Vec<MenuEntry> = Vec::new();
    if state.scanning && state.devices.len() == 0 {
        menu.push(item(String::from_str("_scanning"), String::from_str("\u{1f50d} Scanning..."), false));
    }
    if state.devices.len() != 0 {
        menu.push(MenuEntry::Separator);
    }
    let ghost head = specs_of(menu@);
    assert(head =~= (if state.scanning && state.devices@.len() == 0 {
        seq![MenuSpec::Item("_scanning"@, "\u{1f50d} Scanning..."@, false)]
    } else {
        seq![]
    }) + (if state.devices@.len() != 0 { seq![MenuSpec::Separator] } else { seq![] }));
    push_group(&state.devices, 0, &mut menu);
    push_group(&state.devices, 1, &mut menu);
    push_group(&state.devices, 2, &mut menu);
    let mut tail: Vec<MenuEntry> = Vec::new();
    tail.push(MenuEntry::Separator);
    tail.push(item(String::from_str("rescan"), String::from_str("\u{1f504} Rescan"), !state.scanning));
    tail.push(MenuEntry::Separator);
    tail.push(item(String::from_str("quit"), String::from_str("Quit"), true));
    assert(specs_of(tail@) =~= seq![
        MenuSpec::Separator,
        MenuSpec::Item("rescan"@, "\u{1f504} Rescan"@, !state.scanning),
        MenuSpec::Separator,
        MenuSpec::Item("quit"@, "Quit"@, true),
    ]);
    push_all(&mut menu, tail);
    menu
}


/// The devices that have a tunnel, in order.
pub open spec fn tunnels_only(devices: Seq<(String, DeviceInfo)>) -> Seq<(String, DeviceInfo)> {
    devices.filter(|d: (String, DeviceInfo)| d.1.tunnel_port is Some)
}

/// What a menu click asks of the UI thread.
pub enum MenuAction {
    /// Send `Cmd::Quit` and leave the event loop.
    Quit,
    /// The devices without a tunnel were dropped and scanning is on: rebuild
    /// the menu and send `Cmd::Scan`.
    Rescan,
    /// Run this AppleScript to open an SSH session in Terminal.
    OpenSsh(String),
    /// Put this SSH command on the clipboard.
    CopyCommand(String),
    /// Send this command to the workers.
    Send(Cmd),
    /// Nothing to do.
    Nothing,
}

/// `s` starts with `prefix`; the rest follows it.
pub open spec fn strip_prefix_spec(s: Seq<char>, prefix: Seq<char>) -> Option<Seq<char>> {
    if prefix.len() <= s.len() && s.take(prefix.len() as int) == prefix {
        Some(s.skip(prefix.len() as int))
    } else {
        None
    }
}

fn strip_prefix(s: &Vec<char>, prefix: &str) -> (r: Option<String>)
    ensures
        r matches Some(t) ==> strip_prefix_spec(s@, prefix@) == Some(t@),
        r is None ==> strip_prefix_spec(s@, prefix@) is None,
{
    let p = chars_of(prefix);
    if p.len() > s.len() {
        return None;
    }
    let mut k: usize = 0;
    while k < p.len()
        invariant
            k <= p@.len(),
            p@ == prefix@,
            p@.len() <= s@.len(),
            forall|j: int| 0 <= j < k ==> s@[j] == p@[j],
        decreases p@.len() - k,
    {
        if s[k] != p[k] {
            assert(s@.take(p@.len() as int)[k as int] != p@[k as int]);
            assert(s@.take(p@.len() as int) != p@);
            return None;
        }
        k = k + 1;
    }
    assert(s@.take(p@.len() as int) =~= p@);
    let mut rest: Vec<char> = Vec::new();
    let mut j: usize = p.len();
    while j < s.len()
        invariant
            p@.len() <= j <= s@.len(),
            rest@ == s@.subrange(p@.len() as int, j as int),
        decreases s@.len() - j,
    {
        rest.push(s[j]);
        assert(s@.subrange(p@.len() as int, j + 1) == s@.subrange(p@.len() as int, j as int).push(s@[j as int]));
        j = j + 1;
    }
    assert(rest@ == s@.skip(p@.len() as int));
    Some(string_from_chars(rest.as_slice()))
}

/// The SSH command line opened in Terminal for a tunnel.
pub open spec fn ssh_terminal_command(port: u16, user: Seq<char>) -> Seq<char> {
    "ssh -o StrictHostKeyChecking=no -o UserKnownHostsFile=/dev/null -p "@ + decimal(port as nat) + " "@
        + user + "@localhost"@
}

/// The AppleScript that runs a command in a new Terminal window.
pub open spec fn terminal_script(cmd: Seq<char>) -> Seq<char> {
    "tell application \"Terminal\"\n  activate\n  do script \""@ + cmd + "\"\nend tell"@
}

/// The SSH command copied to the clipboard for a tunnel.
pub open spec fn ssh_copy_command(port: u16, user: Seq<char>) -> Seq<char> {
    "ssh -p "@ + decimal(port as nat) + " "@ + user + "@localhost"@
}

/// The first device with the ID, if it has a tunnel: its port and login.
pub open spec fn tunnel_of(devices: Seq<(String, DeviceInfo)>, id: Seq<char>) -> Option<(u16, Seq<char>)> {
    match device_index(devices, id) {
        Some(i) => match devices[i].1.tunnel_port {
            Some(port) => Some((port, user_of(devices[i].1))),
            None => None,
        },
        None => None,
    }
}

impl AppState {
    /// Port and login of the tunnel of the first device with `id`.
    fn tunnel(&self, id: &String) -> (r: Option<(u16, String)>)
        ensures
            match tunnel_of(self.devices@, id@) {
                Some((port, user)) => r matches Some((p, u)) && p == port && u@ == user,
                None => r is None,
            },
    {
        match self.find(id) {
            Some(i) => match self.devices[i].1.tunnel_port {
                Some(port) => {
                    let user = match &self.devices[i].1.ssh_user {
                        Some(u) => u.clone(),
                        None => String::from_str("pi"),
                    };
                    Some((port, user))
                },
                None => None,
            },
            None => None,
        }
    }

    /// Drops the devices without a tunnel and marks a scan as running.
    pub fn start_rescan(&mut self)
        ensures
            final(self).scanning,
            final(self).devices@ == tunnels_only(old(self).devices@),
    {
        let mut kept: Vec<(String, DeviceInfo)> = Vec::new();
        let mut devices: Vec<(String, DeviceInfo)> = Vec::new();
        std::mem::swap(&mut devices, &mut self.devices);
        let ghost all = devices@;
        let mut rev: Vec<(String, DeviceInfo)> = Vec::new();
        while devices.len() > 0
            invariant
                devices@ + rev@.reverse() == all,
            decreases devices@.len(),
        {
            let ghost before = rev@;
            let d = devices.pop().unwrap();
            rev.push(d);
            assert(rev@.reverse() =~= seq![d] + before.reverse());
        }
        assert(rev@.reverse() =~= all);
        while rev.len() > 0
            invariant
                kept@ == tunnels_only(all.take(all.len() - rev@.len())),
                rev@.reverse() == all.skip(all.len() - rev@.len()),
                rev@.len() <= all.len(),
            decreases rev@.len(),
        {
            let ghost n = all.len() - rev@.len();
            let ghost before = rev@;
            let d = rev.pop().unwrap();
            proof {
                assert(before.reverse()[0] == d);
                assert(all.skip(n)[0] == all[n]);
                assert(all.take(n + 1).drop_last() =~= all.take(n));
                assert(all.take(n + 1).last() == all[n]);
                assert(rev@.reverse() =~= before.reverse().drop_first());
                assert(all.skip(n + 1) =~= all.skip(n).drop_first());
            }
            proof {
                reveal(Seq::filter);
                let t = all.take(n + 1);
                assert(tunnels_only(t) == if t.last().1.tunnel_port is Some {
                    tunnels_only(t.drop_last()).push(t.last())
                } else {
                    tunnels_only(t.drop_last())
                });
            }
            if d.1.tunnel_port.is_some() {
                kept.push(d);
            }
        }
        assert(all.take(all.len() as int) =~= all);
        proof {
            reveal(Seq::filter);
            assert(tunnels_only(all.take(0)) =~= seq![]) by {
                assert(all.take(0).len() == 0);
            }
        }
        self.devices = kept;
        self.scanning = true;
    }

    /// Handles a click on the menu entry with the given ID.
    pub fn menu_click(&mut self, event_id: &str) -> (a: MenuAction)
        ensures
            event_id@ == "quit"@ ==> a is Quit && final(self).devices@ == old(self).devices@,
            event_id@ == "rescan"@ ==> a is Rescan && final(self).scanning
                && final(self).devices@ == tunnels_only(old(self).devices@),
            event_id@ != "quit"@ && event_id@ != "rescan"@ ==> {
                &&& final(self).devices@ == old(self).devices@
                &&& final(self).scanning == old(self).scanning
                &&& match strip_prefix_spec(event_id@, "ssh:"@) {
                    Some(id) => match tunnel_of(old(self).devices@, id) {
                        Some((port, user)) => a matches MenuAction::OpenSsh(script) && script@ == terminal_script(ssh_terminal_command(port, user)),
                        None => a is Nothing,
                    },
                    None => match strip_prefix_spec(event_id@, "copy:"@) {
                        Some(id) => match tunnel_of(old(self).devices@, id) {
                            Some((port, user)) => a matches MenuAction::CopyCommand(c) && c@ == ssh_copy_command(port, user),
                            None => a is Nothing,
                        },
                        None => match strip_prefix_spec(event_id@, "dc:"@) {
                            Some(id) => a matches MenuAction::Send(Cmd::Disconnect(d)) && d@ == id,
                            None => match strip_prefix_spec(event_id@, "d:"@) {
                                Some(id) => a matches MenuAction::Send(Cmd::Connect(d)) && d@ == id,
                                None => a is Nothing,
                            },
                        },
                    },
                }
            },
    {
        proof {
            reveal_strlit("quit");
            reveal_strlit("rescan");
        }
        let eid = String::from_str(event_id);
        if eid == String::from_str("quit") {
            return MenuAction::Quit;
        }
        if eid == String::from_str("rescan") {
            self.start_rescan();
            return MenuAction::Rescan;
        }
        let chars = chars_of(event_id);
        if let Some(id) = strip_prefix(&chars, "ssh:") {
            return match self.tunnel(&id) {
                Some((port, user)) => {
                    let mut cmd = String::from_str("ssh -o StrictHostKeyChecking=no -o UserKnownHostsFile=/dev/null -p ");
                    let p = decimal_string(port as u64);
                    cmd.append(p.as_str());
                    cmd.append(" ");
                    cmd.append(user.as_str());
                    cmd.append("@localhost");
                    let mut script = String::from_str("tell application \"Terminal\"\n  activate\n  do script \"");
                    script.append(cmd.as_str());
                    script.append("\"\nend tell");
                    MenuAction::OpenSsh(script)
                },
                None => MenuAction::Nothing,
            };
        }
        if let Some(id) = strip_prefix(&chars, "copy:") {
            return match self.tunnel(&id) {
                Some((port, user)) => {
                    let mut cmd = String::from_str("ssh -p ");
                    let p = decimal_string(port as u64);
                    cmd.append(p.as_str());
                    cmd.append(" ");
                    cmd.append(user.as_str());
                    cmd.append("@localhost");
                    MenuAction::CopyCommand(cmd)
                },
                None => MenuAction::Nothing,
            };
        }
        if let Some(id) = strip_prefix(&chars, "dc:") {
            return MenuAction::Send(Cmd::Disconnect(id));
        }
        if let Some(id) = strip_prefix(&chars, "d:") {
            return MenuAction::Send(Cmd::Connect(id));
        }
        MenuAction::Nothing
    }
}

/// The device has an open tunnel.
pub open spec fn has_tunnel(d: (String, DeviceInfo)) -> bool {
    d.1.tunnel_port is Some
}

proof fn lemma_connected_is_filtered(devices: Seq<(String, DeviceInfo)>)
    ensures
        connected_count(devices) == devices.filter(|d: (String, DeviceInfo)| has_tunnel(d)).len(),
    decreases devices.len(),
{
    reveal(Seq::filter);
    if devices.len() > 0 {
        lemma_connected_is_filtered(devices.drop_last());
    }
}

/// When devices are known, the title reads the antenna, then the number of
/// devices with an open tunnel, a slash and the number of devices found;
/// what is in progress may follow.
pub proof fn law_title_counts(devices: Seq<(String, DeviceInfo)>, scanning: bool)
    requires
        devices.len() > 0,
    ensures
        ({
            let head = "\u{1f4e1} "@ + decimal(devices.filter(|d: (String, DeviceInfo)| has_tunnel(d)).len()) + "/"@
                + decimal(devices.len());
            &&& title_text(devices, scanning).len() >= head.len()
            &&& title_text(devices, scanning).take(head.len() as int) == head
        }),
{
    lemma_connected_is_filtered(devices);
    let head = "\u{1f4e1} "@ + decimal(connected_count(devices)) + "/"@ + decimal(devices.len());
    let t = title_text(devices, scanning);
    let suffix = t.skip(head.len() as int);
    assert(t == head + suffix);
    assert(t.take(head.len() as int) =~= head);
}

proof fn lemma_group_filtered(devices: Seq<(String, DeviceInfo)>, g: nat, p: spec_fn((String, DeviceInfo)) -> bool)
    requires
        forall|d: (String, DeviceInfo)| #[trigger] p(d) == (group_of(d.1) == g),
    ensures
        group_specs(devices, g) == devices.filter(p).map_values(|d: (String, DeviceInfo)| device_spec(d.0@, d.1)),
    decreases devices.len(),
{
    reveal(Seq::filter);
    if devices.len() > 0 {
        lemma_group_filtered(devices.drop_last(), g, p);
        let f = |d: (String, DeviceInfo)| device_spec(d.0@, d.1);
        let sub = devices.drop_last().filter(p);
        if p(devices.last()) {
            assert(sub.push(devices.last()).map_values(f) =~= sub.map_values(f).push(f(devices.last())));
        }
    }
}

/// The menu lists each device once, in three runs in discovery order: first
/// the devices with an open tunnel, then those connecting, then the others;
/// the runs stand between the leading entries and the closing rescan and
/// quit entries.
pub proof fn law_menu_device_order(devices: Seq<(String, DeviceInfo)>, scanning: bool)
    ensures
        ({
            let f = |d: (String, DeviceInfo)| device_spec(d.0@, d.1);
            let up = devices.filter(|d: (String, DeviceInfo)| d.1.tunnel_port is Some);
            let connecting = devices.filter(|d: (String, DeviceInfo)| d.1.tunnel_port is None && d.1.connecting);
            let idle = devices.filter(|d: (String, DeviceInfo)| d.1.tunnel_port is None && !d.1.connecting);
            let head = if scanning && devices.len() == 0 {
                seq![MenuSpec::Item("_scanning"@, "\u{1f50d} Scanning..."@, false)]
            } else {
                seq![]
            };
            let sep = if devices.len() != 0 { seq![MenuSpec::Separator] } else { seq![] };
            &&& menu_spec(devices, scanning) == head + sep + up.map_values(f) + connecting.map_values(f)
                + idle.map_values(f) + seq![
                MenuSpec::Separator,
                MenuSpec::Item("rescan"@, "\u{1f504} Rescan"@, !scanning),
                MenuSpec::Separator,
                MenuSpec::Item("quit"@, "Quit"@, true),
            ]
            &&& up.len() + connecting.len() + idle.len() == devices.len()
        }),
{
    let p0 = |d: (String, DeviceInfo)| d.1.tunnel_port is Some;
    let p1 = |d: (String, DeviceInfo)| d.1.tunnel_port is None && d.1.connecting;
    let p2 = |d: (String, DeviceInfo)| d.1.tunnel_port is None && !d.1.connecting;
    lemma_group_filtered(devices, 0, p0);
    lemma_group_filtered(devices, 1, p1);
    lemma_group_filtered(devices, 2, p2);
    lemma_partition_len(devices);
}

proof fn lemma_partition_len(devices: Seq<(String, DeviceInfo)>)
    ensures
        devices.filter(|d: (String, DeviceInfo)| d.1.tunnel_port is Some).len() + devices.filter(
            |d: (String, DeviceInfo)| d.1.tunnel_port is None && d.1.connecting,
        ).len() + devices.filter(|d: (String, DeviceInfo)| d.1.tunnel_port is None && !d.1.connecting).len()
            == devices.len(),
    decreases devices.len(),
{
    reveal(Seq::filter);
    if devices.len() > 0 {
        lemma_partition_len(devices.drop_last());
    }
}

} // verus!
