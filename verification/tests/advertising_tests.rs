use sugar_wifi_conf::advertising::{
    hci_adv_enable_args, hci_adv_params_args, hci_command_succeeded, hci_service_uuid_adv_data,
    mgmt_add_advertising, mgmt_command_packet, mgmt_event_verdict, mgmt_failure_message,
    mgmt_local_name_scan_rsp, mgmt_remove_advertising, mgmt_service_uuid_adv_data, truncate_utf8,
    MgmtVerdict, OnFailure, MGMT_OP_ADD_ADVERTISING, MGMT_OP_REMOVE_ADVERTISING,
};
use sugar_wifi_conf::uuid::SERVICE_ID;

#[test]
fn hci_adv_data_tables() {
    let data = hci_service_uuid_adv_data(SERVICE_ID);
    assert_eq!(data.len(), 35);
    assert_eq!(&data[..8], &["cmd", "0x08", "0x0008", "15", "02", "01", "06", "11"]);
    assert_eq!(hci_service_uuid_adv_data("other"), vec!["cmd", "0x08", "0x0008", "03", "02", "01", "06"]);
    assert_eq!(hci_adv_enable_args(true), vec!["cmd", "0x08", "0x000A", "01"]);
    assert_eq!(hci_adv_enable_args(false), vec!["cmd", "0x08", "0x000A", "00"]);
    assert_eq!(hci_adv_params_args().len(), 17);
}

#[test]
fn hci_reply_detection() {
    assert!(hci_command_succeeded(b"< HCI Command: ogf 0x08\n> HCI Event: 0x0e plen 4\n  01 0A 20 00 \n"));
    assert!(hci_command_succeeded(b"01 08 20 00"));
    assert!(hci_command_succeeded(b"x\r\n01 06 20 00\r\n"));
    assert!(!hci_command_succeeded(b"01 0A 20 0C\n"));
    assert!(!hci_command_succeeded(b""));
}

#[test]
fn mgmt_adv_data() {
    let d = mgmt_service_uuid_adv_data(SERVICE_ID);
    assert_eq!(d.len(), 18);
    assert_eq!(&d[..4], &[0x11, 0x07, 0x00, 0x00]);
    assert_eq!(d[17], 0xFD);
    assert!(mgmt_service_uuid_adv_data("x").is_empty());
}

#[test]
fn truncation_keeps_characters_whole() {
    assert_eq!(truncate_utf8("hello", 10), "hello");
    assert_eq!(truncate_utf8("hello", 3), "hel");
    assert_eq!(truncate_utf8("héllo", 2), "h");
    assert_eq!(truncate_utf8("日本語", 7), "日本");
    assert_eq!(truncate_utf8("日本語", 0), "");
}

#[test]
fn scan_response_of_name() {
    assert_eq!(mgmt_local_name_scan_rsp("  pi  "), vec![3, 0x09, b'p', b'i']);
    assert!(mgmt_local_name_scan_rsp("   ").is_empty());
    let long = "abcdefghijklmnopqrstuvwxyz0123456789";
    let r = mgmt_local_name_scan_rsp(long);
    assert_eq!(r.len(), 31);
    assert_eq!(r[0], 30);
    assert_eq!(&r[2..], &long.as_bytes()[..29]);
}

#[test]
fn mgmt_packets() {
    assert_eq!(mgmt_command_packet(0x003f, 0, &[0]), vec![0x3f, 0, 0, 0, 1, 0, 0]);
    let reqs = mgmt_add_advertising(SERVICE_ID, "pi");
    assert_eq!(reqs.len(), 3);
    assert!(matches!(reqs[0].on_failure, OnFailure::Ignore));
    assert!(matches!(reqs[1].on_failure, OnFailure::Warn));
    assert!(matches!(reqs[2].on_failure, OnFailure::Fail));
    assert_eq!(reqs[1].packet, vec![0x09, 0, 0, 0, 1, 0, 0]);
    let add = &reqs[2];
    assert_eq!(add.opcode, MGMT_OP_ADD_ADVERTISING);
    let payload_len = 11 + 18 + 4;
    assert_eq!(add.packet.len(), 6 + payload_len);
    assert_eq!(&add.packet[..6], &[0x3e, 0, 0, 0, payload_len as u8, 0]);
    assert_eq!(&add.packet[6..17], &[1, 9, 0, 0, 0, 0, 0, 0, 0, 18, 4]);
    let rm = mgmt_remove_advertising(1);
    assert_eq!(rm.opcode, MGMT_OP_REMOVE_ADVERTISING);
    assert_eq!(rm.packet, vec![0x3f, 0, 0, 0, 1, 0, 1]);
}

#[test]
fn mgmt_event_reading() {
    let complete = [0x01, 0x00, 0x00, 0x00, 0x03, 0x00, 0x3e, 0x00, 0x00];
    assert!(matches!(mgmt_event_verdict(&complete, 0x3e), MgmtVerdict::Succeeded));
    assert!(matches!(mgmt_event_verdict(&complete, 0x3f), MgmtVerdict::Pending));
    let status = [0x02, 0x00, 0x00, 0x00, 0x03, 0x00, 0x3e, 0x00, 0x0d];
    assert!(matches!(mgmt_event_verdict(&status, 0x3e), MgmtVerdict::Failed { status: 0x0d }));
    let rm_invalid = [0x02, 0x00, 0x00, 0x00, 0x03, 0x00, 0x3f, 0x00, 0x0d];
    assert!(matches!(mgmt_event_verdict(&rm_invalid, 0x3f), MgmtVerdict::Succeeded));
    let other_index = [0x01, 0x00, 0x01, 0x00, 0x03, 0x00, 0x3e, 0x00, 0x00];
    assert!(matches!(mgmt_event_verdict(&other_index, 0x3e), MgmtVerdict::Pending));
    let truncated = [0x01, 0x00, 0x00, 0x00, 0x09, 0x00, 0x3e, 0x00, 0x00];
    assert!(matches!(mgmt_event_verdict(&truncated, 0x3e), MgmtVerdict::Pending));
    assert!(matches!(mgmt_event_verdict(&[1, 0, 0], 0x3e), MgmtVerdict::Pending));
    let other_event = [0x06, 0x00, 0x00, 0x00, 0x03, 0x00, 0x3e, 0x00, 0x00];
    assert!(matches!(mgmt_event_verdict(&other_event, 0x3e), MgmtVerdict::Pending));
}

#[test]
fn mgmt_failure_text() {
    assert_eq!(mgmt_failure_message(0x003e, 0x0d), "MGMT opcode 0x003e failed with status 0x0d");
    assert_eq!(mgmt_failure_message(0x003e, 0x0d), format!("MGMT opcode 0x{:04x} failed with status 0x{:02x}", 0x003eu16, 0x0du8));
    assert_eq!(mgmt_failure_message(0xabcd, 0xff), "MGMT opcode 0xabcd failed with status 0xff");
}
