use sugar_wifi_conf::config::CommandItem;
use sugar_wifi_conf::custom_command::{
    command_entries, find_command, output_notices, resolve_command_input, CommandRequest,
};
use sugar_wifi_conf::protocol::InputRejection;

fn items() -> Vec<CommandItem> {
    vec![
        CommandItem { label: "ls".to_string(), command: "ls".to_string() },
        CommandItem { label: "shutdown".to_string(), command: "shutdown".to_string() },
        CommandItem { label: "reboot".to_string(), command: "reboot".to_string() },
    ]
}

fn run_of(r: CommandRequest) -> Option<String> {
    match r {
        CommandRequest::Run(c) => Some(c),
        _ => None,
    }
}

#[test]
fn entries_get_guid4_suffixes() {
    let entries = command_entries(&items());
    let uuids: Vec<&str> = entries.iter().map(|e| e.uuid_str.as_str()).collect();
    assert_eq!(uuids, vec!["FD2BCCCC0001", "FD2BCCCC0002", "FD2BCCCC0003"]);
    assert_eq!(entries[1].command, "shutdown");
}

#[test]
fn request_by_last_four_digits_runs_that_command() {
    let entries = command_entries(&items());
    let r = resolve_command_input("pisugar%&%0002", "pisugar", &entries);
    assert_eq!(run_of(r).as_deref(), Some("shutdown"));
    let r = resolve_command_input("pisugar%&%0003", "pisugar", &entries);
    assert_eq!(run_of(r).as_deref(), Some("reboot"));
}

#[test]
fn request_by_full_uuid_in_any_case_or_with_dashes() {
    let entries = command_entries(&items());
    let r = resolve_command_input("pisugar%&%FD2BCCCC0001", "pisugar", &entries);
    assert_eq!(run_of(r).as_deref(), Some("ls"));
    let r = resolve_command_input("pisugar%&%fd2bcccc0001", "pisugar", &entries);
    assert_eq!(run_of(r).as_deref(), Some("ls"));
    let r = resolve_command_input("pisugar%&%00000000-0000-0000-0000-fd2bcccc0003", "pisugar", &entries);
    assert_eq!(run_of(r).as_deref(), Some("reboot"));
}

#[test]
fn request_rejections_and_not_found() {
    let entries = command_entries(&items());
    let r = resolve_command_input("pisugar", "pisugar", &entries);
    assert!(matches!(r, CommandRequest::Rejected(InputRejection::Syntax)));
    assert_eq!(r.notice(), "Invalid syntax.");
    let r = resolve_command_input("nope%&%0001", "pisugar", &entries);
    assert!(matches!(r, CommandRequest::Rejected(InputRejection::Key)));
    assert_eq!(r.notice(), "Invalid key.");
    let r = resolve_command_input("pisugar%&%0009", "pisugar", &entries);
    assert!(matches!(r, CommandRequest::NotFound));
    assert_eq!(r.notice(), "Command not found.");
    let r = resolve_command_input("pisugar%&%0001", "pisugar", &entries);
    assert_eq!(r.notice(), "exec done.\n");
}

#[test]
fn find_command_scans_in_order() {
    let entries = command_entries(&items());
    assert_eq!(find_command(&entries, &"0002".chars().collect()), Some("shutdown".to_string()));
    assert_eq!(find_command(&entries, &"000".chars().collect()), None);
}

#[test]
fn output_is_sent_in_framed_packets() {
    assert_eq!(output_notices("hi"), vec!["hi&#&".to_string()]);
    let out = "0123456789abcdefghijKLM";
    assert_eq!(
        output_notices(out),
        vec!["0123456789abcdefghij".to_string(), "KLM&#&".to_string()]
    );
    assert_eq!(output_notices(""), vec!["&#&".to_string()]);
}
