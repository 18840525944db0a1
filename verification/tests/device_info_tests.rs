use sugar_wifi_conf::device_info::{
    detect_ssh_user, device_model_text, info_value_text, ip_addresses_text, wifi_name_from,
    NOT_AVAILABLE,
};

#[test]
fn wifi_name_from_iwconfig() {
    let out = b"wlan0     IEEE 802.11  ESSID:\"HomeNet\"  \n          Mode:Managed  Frequency:2.437 GHz\n";
    assert_eq!(wifi_name_from(out), "HomeNet");
    assert_eq!(wifi_name_from(b"wlan0     IEEE 802.11  ESSID:off/any\n"), NOT_AVAILABLE);
    assert_eq!(wifi_name_from(b"ESSID:\"\""), "");
}

#[test]
fn ip_list_from_ip_addr_show() {
    let out = "1: lo    inet 127.0.0.1/8 scope host lo\n2: wlan0    inet 192.168.1.23/24 brd 192.168.1.255 scope global wlan0\n3: eth0    inet 10.0.0.5/8 scope global eth0\n";
    assert_eq!(ip_addresses_text(out.as_bytes()), "192.168.1.23, 10.0.0.5");
    assert_eq!(ip_addresses_text(b""), "--");
    assert_eq!(ip_addresses_text(b"inet 127.0.0.1/8\n"), "--");
}

#[test]
fn ip_list_follows_dotted_decimal_rules() {
    let cases = [
        ("inet 192.168.001.2/24 inet 10.1.2.3", "10.1.2.3"),
        ("inet 256.1.1.1 inet 1.2.3.4", "1.2.3.4"),
        ("inet 1.2.3 inet 5.6.7.8.9", "5.6.7.8"),
        ("inet inet 9.9.9.9", "9.9.9.9"),
        ("inet 0.0.0.0 inet 01.2.3.4 inet 1.2.3.04", "0.0.0.0"),
        ("inet \u{661}.2.3.4 inet 4.3.2.1", "4.3.2.1"),
        ("xinet 8.8.8.8/32", "8.8.8.8"),
        ("inet 1234.1.1.1 inet 12.34.56.78", "12.34.56.78"),
        ("inet 127.1.2.3 inet 128.0.0.1", "128.0.0.1"),
        ("inet 255.255.255.255", "255.255.255.255"),
    ];
    for (out, want) in cases.iter() {
        assert_eq!(ip_addresses_text(out.as_bytes()), *want, "output: {:?}", out);
    }
}

#[test]
fn ssh_user_from_passwd() {
    let passwd = "root:x:0:0:root:/root:/bin/bash\nnobody:x:65534:65534:nobody:/nonexistent:/usr/sbin/nologin\nsvc:x:1001:1001::/home/svc:/bin/false\nalice:x:1000:1000:Alice:/home/alice:/bin/bash\nbob:x:1002:1002::/home/bob:/bin/bash\n";
    assert_eq!(detect_ssh_user(passwd), "alice");
    assert_eq!(detect_ssh_user(""), "pi");
    assert_eq!(detect_ssh_user("short:x:1000\n"), "pi");
    assert_eq!(detect_ssh_user("x:x:abc:1:::/bin/sh\ny:x:+1500:1:::/bin/zsh\r\n"), "y");
    assert_eq!(detect_ssh_user("z:x:1000:1::/home/z:/sbin/nologin\n"), "pi");
}

#[test]
fn device_model_strips_nuls() {
    assert_eq!(device_model_text("Raspberry Pi 4 Model B Rev 1.4\0"), "Raspberry Pi 4 Model B Rev 1.4");
    assert_eq!(device_model_text("a\0b\0\0"), "a\0b");
    assert_eq!(device_model_text(""), "");
}

#[test]
fn info_values() {
    assert_eq!(info_value_text(true, b"  48.3'C \n"), "48.3'C");
    assert_eq!(info_value_text(false, b"ignored"), "cmd error");
}
