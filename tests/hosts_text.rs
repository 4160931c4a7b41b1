use hosts_editor::hosts::{emergency_backup_path, generate_hosts_content, get_hosts_file_path, parse_hosts_content, render_hosts_file};
use hosts_editor::ip::is_valid_ip;
use hosts_editor::model::{HostEntry, Platform};

fn entry(ip: &str, hostname: &str, comment: &str, enabled: bool) -> HostEntry {
    HostEntry {
        ip: ip.to_string(),
        hostname: hostname.to_string(),
        comment: comment.to_string(),
        enabled,
    }
}

#[test]
fn parses_enabled_and_disabled_lines() {
    let entries = parse_hosts_content("127.0.0.1 example.com # test\n# 10.0.0.1 disabled.com\n");
    assert_eq!(entries.len(), 2);
    assert_eq!(entries[0], entry("127.0.0.1", "example.com", "test", true));
    assert_eq!(entries[1], entry("10.0.0.1", "disabled.com", "", false));
}

#[test]
fn parse_twice_gives_the_same_entries() {
    let text = "10.1.1.1 a.test\n# 10.1.1.2 b.test # off\nnot an entry\n::1 localhost\n";
    assert_eq!(parse_hosts_content(text), parse_hosts_content(text));
}

#[test]
fn parsed_addresses_are_all_valid() {
    let text = "1.2.3.4 a\n999.1.1.1 b\nhello world\n# comment line here\nfe80::1 c # x\n300.0.0.1 d\n";
    let entries = parse_hosts_content(text);
    assert_eq!(entries.len(), 2);
    for e in &entries {
        assert!(is_valid_ip(&e.ip));
    }
}

#[test]
fn drops_malformed_and_empty_lines() {
    let text = "\n   \n# just a comment\nlocalhost 127.0.0.1\n1.2.3.4\n1.2.3.4 host extra\n1.2.3.4 host   \n";
    assert!(parse_hosts_content(text).is_empty());
    assert!(parse_hosts_content("").is_empty());
}

#[test]
fn handles_crlf_leading_space_and_tabs() {
    let entries = parse_hosts_content("  1.2.3.4\thost.a\r\n\t#\t5.6.7.8   host.b   #   note here\r\n");
    assert_eq!(entries.len(), 2);
    assert_eq!(entries[0], entry("1.2.3.4", "host.a", "", true));
    assert_eq!(entries[1], entry("5.6.7.8", "host.b", "note here", false));
}

#[test]
fn comment_marker_without_text_gives_empty_comment() {
    let entries = parse_hosts_content("1.2.3.4 host #");
    assert_eq!(entries, vec![entry("1.2.3.4", "host", "", true)]);
}

#[test]
fn ip_validation() {
    assert!(is_valid_ip("192.168.1.1"));
    assert!(is_valid_ip("0.0.0.0"));
    assert!(is_valid_ip("255.255.255.255"));
    assert!(is_valid_ip("+1.2.3.4"));
    assert!(is_valid_ip("001.002.003.004"));
    assert!(!is_valid_ip("256.1.1.1"));
    assert!(!is_valid_ip("1.2.3"));
    assert!(!is_valid_ip("1.2.3.4.5"));
    assert!(!is_valid_ip("1..3.4"));
    assert!(!is_valid_ip("-1.2.3.4"));
    assert!(!is_valid_ip("a.b.c.d"));
    assert!(!is_valid_ip(""));
    assert!(!is_valid_ip("localhost"));
    assert!(is_valid_ip("::1"));
    assert!(is_valid_ip("fe80::ABCD:1"));
    assert!(is_valid_ip(":"));
    assert!(!is_valid_ip("g::1"));
    assert!(!is_valid_ip("::ffff:1.2.3.4"));
}

#[test]
fn generates_exact_text() {
    let entries = vec![
        entry("10.0.0.1", "a.test", "", true),
        entry("10.0.0.2", "b.test", "off for now", false),
        entry("10.0.0.3", "c.test", "note", true),
    ];
    let text = generate_hosts_content(&entries, "2024-05-06 07:08:09", Platform::Unix);
    let expected = "# Hosts file managed by Hosts Editor\n# Last modified: 2024-05-06 07:08:09\n\n# System entries\n127.0.0.1\tlocalhost\n::1\tlocalhost\n\n# Custom entries\n10.0.0.1\ta.test\n# 10.0.0.2\tb.test\t# off for now\n10.0.0.3\tc.test\t# note\n";
    assert_eq!(text, expected);
}

#[test]
fn windows_adds_localdomain_line() {
    let text = generate_hosts_content(&[], "t", Platform::Windows);
    assert_eq!(
        text,
        "# Hosts file managed by Hosts Editor\n# Last modified: t\n\n# System entries\n127.0.0.1\tlocalhost\n::1\tlocalhost\n127.0.0.1\tlocalhost.localdomain\n\n# Custom entries\n"
    );
}

#[test]
fn round_trip_keeps_custom_entries() {
    let text = "127.0.0.1 example.com # test\n# 10.0.0.1 disabled.com\nbad line\n::1 six.test #  spaced\n";
    let first = parse_hosts_content(text);
    for platform in [Platform::Unix, Platform::Windows] {
        let system = if platform == Platform::Windows { 3 } else { 2 };
        let rendered = generate_hosts_content(&first, "2024-01-01 00:00:00", platform);
        let again = parse_hosts_content(&rendered);
        assert_eq!(again.len(), first.len() + system);
        assert_eq!(again[0], entry("127.0.0.1", "localhost", "", true));
        assert_eq!(again[1], entry("::1", "localhost", "", true));
        assert_eq!(again[system..].to_vec(), first);
    }
}

#[test]
fn render_stamps_the_header() {
    let entries = vec![entry("1.1.1.1", "one.test", "", false)];
    let text = render_hosts_file(&entries, Platform::Unix);
    assert!(text.starts_with("# Hosts file managed by Hosts Editor\n# Last modified: "));
    assert!(text.ends_with("\n# Custom entries\n# 1.1.1.1\tone.test\n"));
    assert_eq!(text.lines().count(), 9);
}

#[test]
fn hosts_paths() {
    assert_eq!(get_hosts_file_path(Platform::Unix), "/etc/hosts");
    assert_eq!(get_hosts_file_path(Platform::Windows), "C:\\Windows\\System32\\drivers\\etc\\hosts");
    assert_eq!(emergency_backup_path(Platform::Unix), "/etc/hosts.backup");
    assert_eq!(emergency_backup_path(Platform::Windows), "C:\\Windows\\System32\\drivers\\etc\\hosts.backup");
}
