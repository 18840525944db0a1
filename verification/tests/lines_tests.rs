use sugar_wifi_conf::lines::{lines_chars, trim_chars, trim_end_chars, ends_with_chars, starts_with_chars};

fn chars(s: &str) -> Vec<char> {
    s.chars().collect()
}

fn text(v: &[char]) -> String {
    v.iter().collect()
}

#[test]
fn lines_match_str_lines() {
    for s in ["", "a", "a\n", "a\n\nb", "\n", "x\r\ny\r\n", "x\ry", "tail\r", "a\n\n"].iter() {
        let ours: Vec<String> = lines_chars(&chars(s)).iter().map(|l| text(l)).collect();
        let std_lines: Vec<String> = s.lines().map(|l| l.to_string()).collect();
        assert_eq!(ours, std_lines, "text: {:?}", s);
    }
}

#[test]
fn trimming_matches_std() {
    for s in ["", "  x  ", "\t\nx y\u{3000}", "\u{a0}a\u{2009}", "abc", "   "].iter() {
        assert_eq!(text(&trim_chars(&chars(s))), s.trim(), "text: {:?}", s);
        assert_eq!(text(&trim_end_chars(&chars(s))), s.trim_end(), "text: {:?}", s);
    }
}

#[test]
fn prefixes_and_suffixes() {
    assert!(ends_with_chars(&chars("/usr/sbin/nologin"), &chars("/nologin")));
    assert!(!ends_with_chars(&chars("nologin"), &chars("/nologin")));
    assert!(starts_with_chars(&chars("ERR:x"), &chars("ERR:")));
    assert!(!starts_with_chars(&chars("ER"), &chars("ERR:")));
}
