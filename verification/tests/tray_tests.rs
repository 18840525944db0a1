use sugar_wifi_conf::tray::{build_menu, tray_title, AppState, Cmd, MenuAction, MenuEntry, UiMsg};

fn found(id: &str, name: &str) -> UiMsg {
    UiMsg::DeviceFound { id: id.to_string(), name: name.to_string() }
}

fn entry_id(e: &MenuEntry) -> Option<&str> {
    match e {
        MenuEntry::Item { id, .. } | MenuEntry::Check { id, .. } | MenuEntry::Submenu { id, .. } => {
            Some(id.as_str())
        }
        MenuEntry::Separator => None,
    }
}

#[test]
fn title_while_scanning_and_after() {
    let mut s = AppState::new();
    assert_eq!(tray_title(&s), "📡 Scanning…");
    assert!(s.apply(found("a", "pi-a")));
    assert!(!s.apply(found("a", "pi-a")));
    assert!(s.apply(found("b", "pi-b")));
    assert_eq!(tray_title(&s), "📡 0/2 Scanning…");
    assert!(s.apply(UiMsg::ScanDone));
    assert_eq!(tray_title(&s), "📡 0/2");
    assert!(s.apply(UiMsg::Connecting { id: "a".to_string() }));
    assert_eq!(tray_title(&s), "📡 0/2 Connecting…");
    assert!(s.apply(UiMsg::TunnelUp { id: "a".to_string(), port: 2222 }));
    assert_eq!(tray_title(&s), "📡 1/2");
    assert!(!s.apply(UiMsg::TunnelUp { id: "zz".to_string(), port: 1 }));
    assert!(!s.apply(UiMsg::Error("boom".to_string())));
}

#[test]
fn menu_orders_connected_first() {
    let mut s = AppState::new();
    s.apply(found("a", "pi-a"));
    s.apply(found("b", "pi-b"));
    s.apply(found("c", "pi-c"));
    s.apply(UiMsg::IpRead { id: "a".to_string(), ip: "10.0.0.2".to_string() });
    s.apply(UiMsg::Connecting { id: "b".to_string() });
    s.apply(UiMsg::TunnelUp { id: "c".to_string(), port: 2223 });
    s.apply(UiMsg::SshUser { id: "c".to_string(), user: "alice".to_string() });
    s.apply(UiMsg::ScanDone);
    let menu = build_menu(&s);
    let ids: Vec<Option<&str>> = menu.iter().map(entry_id).collect();
    assert_eq!(
        ids,
        vec![None, Some("d:c"), Some("d:b"), Some("d:a"), None, Some("rescan"), None, Some("quit")]
    );
    match &menu[1] {
        MenuEntry::Submenu { text, items, .. } => {
            assert_eq!(text, "✓ pi-c → alice@localhost:2223");
            assert_eq!(items.len(), 4);
            match &items[0] {
                MenuEntry::Item { id, text, enabled } => {
                    assert_eq!(id, "ssh:c");
                    assert_eq!(text, "Open SSH (alice@localhost -p 2223)");
                    assert!(*enabled);
                }
                _ => panic!("expected item"),
            }
        }
        _ => panic!("expected submenu"),
    }
    match &menu[2] {
        MenuEntry::Item { text, enabled, .. } => {
            assert_eq!(text, "pi-b - Connecting...");
            assert!(!*enabled);
        }
        _ => panic!("expected item"),
    }
    match &menu[3] {
        MenuEntry::Check { text, enabled, checked, .. } => {
            assert_eq!(text, "pi-a (10.0.0.2)");
            assert!(*enabled && !*checked);
        }
        _ => panic!("expected check item"),
    }
}

#[test]
fn empty_scanning_menu() {
    let s = AppState::new();
    let menu = build_menu(&s);
    assert_eq!(menu.len(), 5);
    match &menu[0] {
        MenuEntry::Item { id, text, enabled } => {
            assert_eq!(id, "_scanning");
            assert_eq!(text, "🔍 Scanning...");
            assert!(!*enabled);
        }
        _ => panic!("expected item"),
    }
    match &menu[2] {
        MenuEntry::Item { id, enabled, .. } => {
            assert_eq!(id, "rescan");
            assert!(!*enabled);
        }
        _ => panic!("expected item"),
    }
}

#[test]
fn clicks() {
    let mut s = AppState::new();
    s.apply(found("a", "pi-a"));
    s.apply(found("b", "pi-b"));
    s.apply(UiMsg::TunnelUp { id: "a".to_string(), port: 2222 });
    assert!(matches!(s.menu_click("quit"), MenuAction::Quit));
    match s.menu_click("copy:a") {
        MenuAction::CopyCommand(c) => assert_eq!(c, "ssh -p 2222 pi@localhost"),
        _ => panic!("expected copy"),
    }
    match s.menu_click("ssh:a") {
        MenuAction::OpenSsh(script) => assert_eq!(
            script,
            "tell application \"Terminal\"\n  activate\n  do script \"ssh -o StrictHostKeyChecking=no -o UserKnownHostsFile=/dev/null -p 2222 pi@localhost\"\nend tell"
        ),
        _ => panic!("expected ssh"),
    }
    assert!(matches!(s.menu_click("ssh:b"), MenuAction::Nothing));
    assert!(matches!(s.menu_click("dc:a"), MenuAction::Send(Cmd::Disconnect(ref id)) if id == "a"));
    assert!(matches!(s.menu_click("d:b"), MenuAction::Send(Cmd::Connect(ref id)) if id == "b"));
    assert!(matches!(s.menu_click("other"), MenuAction::Nothing));
    s.apply(UiMsg::ScanDone);
    assert!(matches!(s.menu_click("rescan"), MenuAction::Rescan));
    assert!(s.scanning);
    assert_eq!(s.devices.len(), 1);
    assert_eq!(s.devices[0].0, "a");
}

#[test]
fn tunnel_down_clears_port() {
    let mut s = AppState::new();
    s.apply(found("a", "pi-a"));
    s.apply(UiMsg::TunnelUp { id: "a".to_string(), port: 2222 });
    assert!(s.apply(UiMsg::TunnelDown { id: "a".to_string() }));
    assert_eq!(s.devices[0].1.tunnel_port, None);
    assert!(!s.devices[0].1.connecting);
}
