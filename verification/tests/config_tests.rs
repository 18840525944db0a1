use sugar_wifi_conf::config::{
    command_choice_label, command_display, default_interval, info_choice_label, CommandItem,
    CustomConfig, InfoItem,
};

fn info(label: &str, interval: u64) -> InfoItem {
    InfoItem { label: label.to_string(), command: format!("echo {}", label), interval }
}

#[test]
fn editing_info_and_commands() {
    let mut c = CustomConfig::empty();
    assert!(c.info.is_empty() && c.commands.is_empty());
    c.add_info(info("CPU Temp", 5));
    c.add_info(info("Load", 1));
    c.edit_info(1, info("Memory", default_interval()));
    assert_eq!(c.info[1].label, "Memory");
    assert_eq!(c.info[1].interval, 10);
    let removed = c.remove_info(0);
    assert_eq!(removed.label, "CPU Temp");
    assert_eq!(c.info.len(), 1);
    c.add_command(CommandItem { label: "ls".to_string(), command: "ls".to_string() });
    c.add_command(CommandItem { label: "reboot".to_string(), command: "reboot".to_string() });
    c.edit_command(0, CommandItem { label: "list".to_string(), command: "ls -l".to_string() });
    assert_eq!(c.commands[0].command, "ls -l");
    let r = c.remove_command(1);
    assert_eq!(r.label, "reboot");
    assert_eq!(c.commands.len(), 1);
    assert_eq!(c.info.len(), 1);
}

#[test]
fn selection_labels() {
    assert_eq!(info_choice_label(&info("CPU Temp", 5)), "CPU Temp (5s)");
    let cmd = CommandItem { label: "ls".to_string(), command: "ls -la".to_string() };
    assert_eq!(command_choice_label(&cmd), "ls → ls -la");
}

#[test]
fn command_column() {
    let short = "vcgencmd measure_temp";
    assert_eq!(command_display(short), short);
    let exactly = "a".repeat(38);
    assert_eq!(command_display(&exactly), exactly);
    let long = "top -bn1 | grep load | awk '{printf \"%.2f%%\", $(NF-2)}'";
    assert_eq!(command_display(long), format!("{}…", &long[..37]));
}
