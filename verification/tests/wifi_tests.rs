use regex::Regex;
use sugar_wifi_conf::wifi::{
    block_priority, block_ssid, is_wlan0_ok, network_blocks, nm_add_failed_message,
    nm_up_message, nm_wlan0_status, parse_u32_str, rewrite_wpa_conf, wpa_max_priority,
    LaunchOutcome, NmWlan0, WpaLauncher,
};

const CONF: &str = r#"country=CN
ctrl_interface=DIR=/var/run/wpa_supplicant GROUP=netdev
update_config=1

network={
    ssid="ExampleSSID1"
    psk="example_password"
    priority=2
}
network={
    ssid="ExampleSSID2"
    psk="example_password"
}"#;

#[test]
fn test_parse_wpa_supplicant_conf() {
    let conf = CONF;

    let matches = network_blocks(conf);
    assert_eq!(matches.len(), 2);

    let block0 = &matches[0];
    let ssid0 = block_ssid(block0).unwrap();
    assert_eq!(ssid0, "ExampleSSID1");

    let pri0 = parse_u32_str(&block_priority(block0).unwrap()).unwrap();
    assert_eq!(pri0, 2);

    let block1 = &matches[1];
    let ssid1 = block_ssid(block1).unwrap();
    assert_eq!(ssid1, "ExampleSSID2");
    assert!(block_priority(block1).is_none());
}

#[test]
fn network_blocks_agree_with_the_regex() {
    let confs = [
        CONF,
        "network={}network={a}x",
        "network={\n ssid=\"a\"\n}\nnetwork={ unterminated",
        "network=network={ssid=\"z\"}}",
        "",
        "nothing here",
    ];
    let re = Regex::new(r"(?s)(network=\{[^}]+\})").unwrap();
    for conf in confs.iter() {
        let expected: Vec<String> = re.captures_iter(conf).map(|c| c[1].to_string()).collect();
        assert_eq!(network_blocks(conf), expected, "conf: {:?}", conf);
    }
}

#[test]
fn ssid_and_priority_agree_with_the_regexes() {
    let ssid_re = Regex::new(r#"ssid="([^"]*)""#).unwrap();
    let pri_re = Regex::new(r"priority=(\d+)").unwrap();
    let blocks = [
        "network={\n\tscan_ssid=1\n\tssid=\"home\"\n\tpriority=17\n}",
        "network={ssid=\"\"}",
        "network={ssid=\"open}",
        "network={priority=x priority=4}",
        "network={priority=٣}",
    ];
    for b in blocks.iter() {
        let want_ssid = ssid_re.captures(b).map(|c| c[1].to_string());
        assert_eq!(block_ssid(b), want_ssid, "block: {:?}", b);
        let want_pri = pri_re.captures(b).map(|c| c[1].to_string());
        assert_eq!(block_priority(b), want_pri, "block: {:?}", b);
    }
}

#[test]
fn parse_u32_str_matches_std() {
    for t in ["0", "42", "+7", "4294967295", "4294967296", "", "+", "-1", "1a", "٣"].iter() {
        assert_eq!(parse_u32_str(t), t.parse::<u32>().ok(), "text: {:?}", t);
    }
}

#[test]
fn max_priority_of_conf() {
    assert_eq!(wpa_max_priority(CONF), 2);
    assert_eq!(wpa_max_priority("country=GB\n"), 0);
    assert_eq!(wpa_max_priority("network={priority=9}\nnetwork={priority=99999999999}"), 9);
}

#[test]
fn rewrite_adds_network_and_drops_same_ssid() {
    let out = rewrite_wpa_conf(CONF, "ExampleSSID2", "secret");
    let expected = "country=CN\nctrl_interface=DIR=/var/run/wpa_supplicant GROUP=netdev\nupdate_config=1\n\t\
network={\n    ssid=\"ExampleSSID1\"\n    psk=\"example_password\"\n    priority=2\n}\n\t\
network={\n\t\tssid=\"ExampleSSID2\"\n\t\tscan_ssid=1\n\t\tpsk=\"secret\"\n\t\tpriority=3\n\t}";
    assert_eq!(out, expected);
}

#[test]
fn rewrite_normalises_country_and_trims() {
    let out = rewrite_wpa_conf("Country=US\nupdate_config=1\n\n\n", "net", "pw");
    assert_eq!(
        out,
        "country=US\nupdate_config=1\n\tnetwork={\n\t\tssid=\"net\"\n\t\tscan_ssid=1\n\t\tpsk=\"pw\"\n\t\tpriority=1\n\t}"
    );
}

#[test]
fn interfaces_nohook_detection() {
    assert!(is_wlan0_ok(""));
    assert!(is_wlan0_ok("interface eth0\n nohook wpa_supplicant\n"));
    assert!(!is_wlan0_ok("interface wlan0\n  nohook wpa_supplicant\n"));
    assert!(is_wlan0_ok("interface wlan0\n#nohook wpa_supplicant\n"));
    assert!(is_wlan0_ok("#interface wlan0\nnohook wpa_supplicant\n"));
    assert!(is_wlan0_ok("interface wlan0\ninterface eth0\nnohook wpa_supplicant\n"));
}

#[test]
fn nmcli_status_rows() {
    let out = b"DEVICE  TYPE      STATE         CONNECTION\nwlan0   wifi      connected     home\nlo      loopback  unmanaged     --\n";
    match nm_wlan0_status(out) {
        NmWlan0::Listed { unavailable, managed } => {
            assert!(!unavailable);
            assert!(managed);
        }
        NmWlan0::Absent => panic!("wlan0 row missing"),
    }
    match nm_wlan0_status(b"wlan0 wifi unavailable --\n") {
        NmWlan0::Listed { unavailable, managed } => {
            assert!(unavailable);
            assert!(!managed);
        }
        NmWlan0::Absent => panic!("wlan0 row missing"),
    }
    match nm_wlan0_status(b"wlan0 wifi unmanaged --\n") {
        NmWlan0::Listed { managed, .. } => assert!(!managed),
        NmWlan0::Absent => panic!("wlan0 row missing"),
    }
    assert!(matches!(nm_wlan0_status(b"eth0 ethernet connected x\n"), NmWlan0::Absent));
    assert!(matches!(nm_wlan0_status(b""), NmWlan0::Absent));
}

#[test]
fn nm_messages() {
    assert_eq!(nm_add_failed_message(b"boom"), "nmcli add failed: boom");
    assert_eq!(nm_up_message(true, b"  Connection activated \n", b""), "Successfully connected to Wi-Fi: Connection activated");
    assert_eq!(nm_up_message(false, b"", b"no network"), "Failed to connect: no network");
    assert_eq!(nm_add_failed_message(&[0xff, b'x']), "nmcli add failed: \u{fffd}x");
}

#[test]
fn wpa_launcher_retries_then_reports() {
    let mut l = WpaLauncher::new();
    let mut attempts = 0;
    while l.wants_attempt() {
        attempts += 1;
        if attempts < 3 {
            l.record(LaunchOutcome::Failed { stderr: b"busy".to_vec() });
        } else {
            l.record(LaunchOutcome::Started { stdout: b"Successfully initialized".to_vec() });
        }
    }
    assert_eq!(attempts, 3);
    assert_eq!(l.report(), "8 Successfully initialized");

    let mut l = WpaLauncher::new();
    while l.wants_attempt() {
        l.record(LaunchOutcome::NotRun { error: "not found".to_string() });
    }
    assert_eq!(l.report(), "0 Command failed: not found");
}

#[test]
fn rewritten_conf_reads_back() {
    let out = rewrite_wpa_conf(CONF, "Cafe Wifi", "pa ss");
    let blocks = network_blocks(&out);
    assert_eq!(blocks.len(), 3);
    let last = blocks.last().unwrap();
    assert_eq!(block_ssid(last).as_deref(), Some("Cafe Wifi"));
    assert_eq!(parse_u32_str(&block_priority(last).unwrap()), Some(3));
    assert_eq!(wpa_max_priority(&out), 3);
    let again = rewrite_wpa_conf(&out, "Cafe Wifi", "new");
    let blocks = network_blocks(&again);
    assert_eq!(blocks.len(), 3);
    assert_eq!(parse_u32_str(&block_priority(blocks.last().unwrap()).unwrap()), Some(4));
}

#[test]
fn rewrite_after_unclosed_block_reads_the_old_ssid() {
    let out = rewrite_wpa_conf("country=CN\nnetwork={\nssid=\"old\"\n", "new", "pw");
    assert_eq!(
        out,
        "country=CN\nnetwork={\nssid=\"old\"\n\tnetwork={\n\t\tssid=\"new\"\n\t\tscan_ssid=1\n\t\tpsk=\"pw\"\n\t\tpriority=1\n\t}"
    );
    let blocks = network_blocks(&out);
    assert_eq!(blocks.len(), 1);
    assert_eq!(block_ssid(&blocks[0]).as_deref(), Some("old"));
}
