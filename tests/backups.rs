use hosts_editor::backup::{backup_file_names, collect_backups, deletion_targets, find_backup, metadata_path_for, sanitize_filename, MetaScan};
use hosts_editor::model::{AppState, BackupInfo, HostEntry};

fn info(name: &str, created_at: &str, path: &str) -> BackupInfo {
    BackupInfo { name: name.to_string(), created_at: created_at.to_string(), path: path.to_string() }
}

fn scan(name: &str, secs: i64, present: bool) -> MetaScan {
    MetaScan {
        info: info(name, &format!("t{}", secs), &format!("/b/{}_{}.hosts", name, secs)),
        created_secs: secs,
        content_present: present,
    }
}

fn names(list: &[MetaScan]) -> Vec<String> {
    list.iter().map(|s| s.info.name.clone()).collect()
}

#[test]
fn sanitize_replaces_reserved_characters() {
    assert_eq!(sanitize_filename("a/b:c"), "a_b_c");
    assert_eq!(sanitize_filename("<>:\"|?*/\\"), "_________");
    assert_eq!(sanitize_filename("  my backup \t"), "my backup");
    assert_eq!(sanitize_filename("   "), "");
    assert_eq!(sanitize_filename("release"), "release");
}

#[test]
fn backup_names_have_no_reserved_characters() {
    let names = backup_file_names("a/b:c", "20240102_030405");
    assert_eq!(names.content, "a_b_c_20240102_030405.hosts");
    assert_eq!(names.metadata, "a_b_c_20240102_030405.meta");
    for c in ['<', '>', ':', '"', '|', '?', '*', '/', '\\'] {
        assert!(!names.content.contains(c));
    }
}

#[test]
fn listing_is_newest_first_and_skips_missing_content() {
    let scans = vec![scan("old", 100, true), scan("orphan", 500, false), scan("new", 300, true), scan("mid", 200, true)];
    let listed = collect_backups(scans);
    assert_eq!(names(&listed), vec!["new", "mid", "old"]);
}

#[test]
fn listing_keeps_order_of_equal_instants() {
    let listed = collect_backups(vec![scan("a", 5, true), scan("b", 5, true), scan("c", 7, true)]);
    assert_eq!(names(&listed), vec!["c", "a", "b"]);
    assert!(collect_backups(Vec::new()).is_empty());
}

#[test]
fn created_backup_is_listed() {
    let listed = collect_backups(vec![scan("x", 10, true), scan("foo", 20, true)]);
    assert!(listed.iter().any(|s| s.info.name == "foo" && s.created_secs == 20));
}

#[test]
fn delete_then_list_drops_exactly_one() {
    let before = collect_backups(vec![scan("keep", 1, true), scan("release", 2, true)]);
    let infos: Vec<BackupInfo> = before.iter().map(|s| s.info.clone()).collect();
    let targets = deletion_targets(&infos, "release");
    assert_eq!(targets, vec!["/b/release_2.hosts".to_string(), "/b/release_2.meta".to_string()]);
    let after = collect_backups(vec![scan("keep", 1, true)]);
    assert_eq!(after.len(), before.len() - 1);
    assert!(!after.iter().any(|s| s.info.name == "release"));
}

#[test]
fn deleting_an_absent_name_removes_nothing() {
    let infos = vec![info("keep", "t", "/b/keep_1.hosts")];
    assert!(deletion_targets(&infos, "release").is_empty());
    assert!(deletion_targets(&[], "release").is_empty());
}

#[test]
fn find_takes_the_first_match() {
    let infos = vec![info("a", "3", "/p1.hosts"), info("b", "2", "/p2.hosts"), info("a", "1", "/p3.hosts")];
    assert_eq!(find_backup(&infos, "a"), Some(0));
    assert_eq!(find_backup(&infos, "b"), Some(1));
    assert_eq!(find_backup(&infos, "c"), None);
}

#[test]
fn metadata_path_replaces_extension() {
    assert_eq!(metadata_path_for("/home/u/.hosts-editor/backups/x_20240101_000000.hosts"), "/home/u/.hosts-editor/backups/x_20240101_000000.meta");
    assert_eq!(metadata_path_for("plain"), "plain.meta");
}

#[test]
fn session_state() {
    let mut state = AppState::new();
    assert!(state.needs_elevation());
    state.mark_elevated();
    assert!(!state.needs_elevation());
    let e = HostEntry { ip: "1.2.3.4".to_string(), hostname: "h".to_string(), comment: String::new(), enabled: true };
    state.set_entries(vec![e.clone()]);
    assert_eq!(state.hosts_entries, vec![e]);
    assert!(state.is_elevated);
}
