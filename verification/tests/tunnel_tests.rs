use sugar_wifi_conf::tunnel::{
    choose_route, connect_reply, device_display_name, direct_ssh_addr, is_closed_reply,
    is_ssh_banner, parse_ctrl_command, tunnel_chunks, username_from_read, BannerAction,
    BannerOutcome, BannerWait, ConnectReply, CtrlCommand, ProxyRoute, SshTunnel, TunnelEvent,
};

#[test]
fn control_commands() {
    assert!(parse_ctrl_command(b"CONNECT") == CtrlCommand::Connect);
    assert!(parse_ctrl_command(b" DISCONNECT\n") == CtrlCommand::Disconnect);
    assert!(parse_ctrl_command(b"connect") == CtrlCommand::Unknown);
    assert!(parse_ctrl_command(b"") == CtrlCommand::Unknown);
}

#[test]
fn device_side_protocol() {
    let mut t = SshTunnel::new();
    assert!(!t.linked);
    let r = t.handle(TunnelEvent::Command { cmd: CtrlCommand::Connect });
    assert!(r.drop_connection && r.dial_sshd && r.notify.is_none());
    let r = t.handle(TunnelEvent::SshdConnected);
    assert_eq!(r.notify.as_deref(), Some("OK"));
    assert!(t.linked);
    let r = t.handle(TunnelEvent::SshdReadFailed { error: "reset".to_string() });
    assert_eq!(r.notify.as_deref(), Some("ERR:reset"));
    assert!(t.linked);
    let r = t.handle(TunnelEvent::Command { cmd: CtrlCommand::Disconnect });
    assert_eq!(r.notify.as_deref(), Some("CLOSED"));
    assert!(r.drop_connection && !r.dial_sshd);
    assert!(!t.linked);
    let r = t.handle(TunnelEvent::SshdConnectFailed { error: "Connection refused".to_string() });
    assert_eq!(r.notify.as_deref(), Some("ERR:Connection refused"));
    let r = t.handle(TunnelEvent::Command { cmd: CtrlCommand::Unknown });
    assert!(!r.drop_connection && !r.dial_sshd && r.notify.is_none());
    t.handle(TunnelEvent::SshdConnected);
    let r = t.handle(TunnelEvent::SshdClosed);
    assert_eq!(r.notify.as_deref(), Some("CLOSED"));
    let r = t.handle(TunnelEvent::SshdWriteFailed { error: "broken pipe".to_string() });
    assert_eq!(r.notify.as_deref(), Some("ERR:broken pipe"));
    assert!(!t.linked);
}

#[test]
fn tunnel_data_chunks() {
    let data: Vec<u8> = (0..1200u32).map(|i| (i % 256) as u8).collect();
    let chunks = tunnel_chunks(&data);
    assert_eq!(chunks.iter().map(|c| c.len()).collect::<Vec<_>>(), vec![512, 512, 176]);
    assert_eq!(chunks.concat(), data);
    assert!(tunnel_chunks(&[]).is_empty());
}

#[test]
fn client_reads_replies() {
    assert!(matches!(connect_reply("OK"), ConnectReply::Opened));
    match connect_reply("ERR:Connection refused") {
        ConnectReply::Refused { message } => assert_eq!(message, "Server: ERR:Connection refused"),
        _ => panic!("expected refusal"),
    }
    assert!(matches!(connect_reply("CLOSED"), ConnectReply::Other));
    assert!(matches!(connect_reply("OK "), ConnectReply::Other));
    assert!(is_closed_reply("CLOSED"));
    assert!(!is_closed_reply("OK"));
}

#[test]
fn banner_detection_and_retries() {
    assert!(is_ssh_banner(b"SSH-2.0-OpenSSH_9.2\r\n"));
    assert!(!is_ssh_banner(b"SSH"));
    assert!(!is_ssh_banner(b"ssh-2.0"));
    let mut w = BannerWait::new();
    let mut attempts = 0;
    let mut delivered = None;
    while w.wants_attempt() {
        attempts += 1;
        let outcome = match attempts {
            1 => BannerOutcome::TimedOut,
            2 => BannerOutcome::Data { bytes: b"junk".to_vec() },
            _ => BannerOutcome::Data { bytes: b"SSH-2.0-x\r\n".to_vec() },
        };
        match w.record(outcome) {
            BannerAction::Deliver { banner } => delivered = Some(banner),
            BannerAction::DrainAndClose => assert_eq!(attempts, 2),
            BannerAction::Close => assert_eq!(attempts, 1),
        }
    }
    assert_eq!(attempts, 3);
    assert_eq!(delivered, Some(b"SSH-2.0-x\r\n".to_vec()));

    let mut w = BannerWait::new();
    let mut n = 0;
    while w.wants_attempt() {
        n += 1;
        assert!(matches!(w.record(BannerOutcome::ChannelClosed), BannerAction::Close));
    }
    assert_eq!(n, 5);
    assert_eq!(w.exhausted_message(), "Failed to receive SSH banner after 5 attempts");
}

#[test]
fn names_users_and_routes() {
    assert_eq!(device_display_name("cm5 [pisugar]"), "cm5");
    assert_eq!(device_display_name("plain"), "plain");
    assert_eq!(device_display_name("a [b] [c]"), "a");
    assert_eq!(device_display_name(" [x]"), "");
    assert_eq!(username_from_read(b" alice\n"), Some("alice".to_string()));
    assert_eq!(username_from_read(b"   "), None);
    assert_eq!(direct_ssh_addr("192.168.1.5"), "192.168.1.5:22");
    assert!(matches!(choose_route(true, false), ProxyRoute::Direct));
    assert!(matches!(choose_route(false, true), ProxyRoute::Ble));
    assert!(matches!(choose_route(false, false), ProxyRoute::Unroutable));
}
