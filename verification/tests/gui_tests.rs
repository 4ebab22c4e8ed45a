use blkbstr::gui::{
    active_verb, check_log_name, config_file_name, config_names, diagnostics_file_name,
    diagnostics_text, enable_verb, failure_text, group_hint, log_name, order_logs, process_groups,
    query_answer, reply_of, service_status_from, tail_offset, tail_text, unsupported_status,
    Error, LogFile, TAIL_BYTES,
};
use blkbstr::paths::{join_path, log_dir, socket_name, state_dir};
use blkbstr::protocol::{ErrorCode, Response};

#[test]
fn rejects_names_that_are_not_plain_files() {
    for name in ["", "..", "../../etc/passwd", "a/b", ".hidden", "/etc/passwd"] {
        assert!(log_name(name).is_err(), "{name:?} should be rejected");
    }
    assert!(log_name("blkbstrd.log.2026-08-17").is_ok());
}

#[test]
fn a_tailed_file_never_starts_mid_line() {
    let line = "the quick brown fox jumps over the lazy dog\n";
    let content = line.repeat((TAIL_BYTES as usize / line.len()) + 100);
    let start = tail_offset(content.len() as u64).expect("longer than the tail") as usize;
    let tailed = tail_text(content[start..].to_string(), true);
    assert!(tailed.len() < content.len(), "should have been truncated");
    assert!(tailed.starts_with(line), "tail begins mid-line: {:?}", &tailed[..40.min(tailed.len())]);
    assert_eq!(tail_offset(10), None);
    assert_eq!(tail_text("a\nb".into(), false), "a\nb");
}

#[test]
fn a_log_name_error_quotes_the_name() {
    assert_eq!(check_log_name("a/b", 2).unwrap_err(), "\"a/b\" is not a log file name");
    assert!(check_log_name("x.log", 2).is_err());
    assert!(check_log_name("x.log", 1).is_ok());
}

#[test]
fn diagnostics_read_in_order() {
    assert_eq!(diagnostics_file_name(42), "blkbstr-diagnostics-42.txt");
    let logs = vec![("a.log".to_string(), Ok("hello\n".to_string())), ("b.log".to_string(), Err("gone".to_string()))];
    let text = diagnostics_text("0.1.0", "linux", "{}", &logs);
    assert_eq!(
        text,
        "# Blockbuster diagnostics\n\napp version: 0.1.0\nplatform: linux\n\n## Status\n\n{}\n\n## a.log\n\nhello\n\n\n## b.log\n\n(could not read: gone)\n\n\n"
    );
}

#[test]
fn saved_configs_are_json_files_by_name() {
    assert_eq!(config_file_name("home").unwrap(), "home.json");
    assert!(config_file_name("../etc").is_err());
    let files = vec!["b.json".to_string(), "a.json".to_string(), ".json".to_string(), "notes.txt".to_string(), "c.d.json".to_string()];
    assert_eq!(config_names(&files), vec!["a".to_string(), "b".to_string(), "c.d".to_string()]);
}

#[test]
fn service_answers_mean_what_systemd_says() {
    let s = service_status_from(Some("enabled"), Some("active"));
    assert!(s.installed && s.enabled && s.active && s.unsupported.is_none());
    let s = service_status_from(Some("not-found"), Some("inactive"));
    assert!(!s.installed && !s.enabled && !s.active);
    let s = service_status_from(None, None);
    assert!(!s.installed);
    assert!(unsupported_status().unsupported.is_some());
    assert_eq!(query_answer("  enabled-runtime\n").as_deref(), Some("enabled-runtime"));
    assert_eq!(query_answer(" \n"), None);
    assert_eq!(enable_verb(true), "enable");
    assert_eq!(active_verb(false), "stop");
    assert_eq!(failure_text("start", "  "), "systemctl start blkbstrd.service failed");
    assert_eq!(failure_text("start", " denied \n"), "denied");
}

#[test]
fn a_refused_socket_says_how_to_join_its_group() {
    let status = "Name:\tblkbstr\nGid:\t1000\t1000\t1000\t1000\nGroups:\t4 24 27\n";
    assert_eq!(process_groups(status), Some(vec![4, 24, 27, 1000, 1000, 1000, 1000]));
    let entry = Some(("blkbstr".to_string(), vec!["dodo".to_string()]));
    assert_eq!(group_hint(1001, Some(vec![4]), entry.clone(), Some("ada".into())).unwrap(),
        ". Your account is not in the blkbstr group — run `sudo usermod -aG blkbstr ada`, then log out and back in");
    assert!(group_hint(1001, Some(vec![4]), entry.clone(), Some("dodo".into())).unwrap().contains("log out and back in"));
    assert_eq!(group_hint(1001, Some(vec![1001]), entry.clone(), Some("ada".into())), None);
    assert_eq!(group_hint(1001, None, entry, Some("ada".into())), None);
}

#[test]
fn daemon_errors_read_as_sentences() {
    assert_eq!(Error::Unreachable("x".into()).message(), "blkbstrd is not running or not reachable: x");
    assert_eq!(Error::Io("y".into()).message(), "talking to blkbstrd failed: y");
    assert!(matches!(reply_of(None), Err(Error::Io(_))));
    assert!(matches!(reply_of(Some(Response::Done)), Ok(Response::Done)));
    let err = reply_of(Some(Response::Error { code: ErrorCode::EngineFailed, message: "m".into() }));
    assert!(matches!(err, Err(Error::Daemon(m)) if m == "m"));
}

#[test]
fn locations_honour_overrides() {
    assert_eq!(socket_name(None, false), "/run/blkbstr/blkbstrd.sock");
    assert_eq!(socket_name(None, true), "blkbstrd.sock");
    assert_eq!(socket_name(Some("/tmp/s".into()), false), "/tmp/s");
    assert_eq!(state_dir(None, false), "/var/lib/blkbstr");
    assert_eq!(log_dir(Some("/tmp/logs".into()), false), "/tmp/logs");
    assert_eq!(join_path("/var/log/blkbstr", "a.log", false), "/var/log/blkbstr/a.log");
    assert_eq!(join_path("/var/log/", "a.log", false), "/var/log/a.log");
    assert_eq!(join_path("C:\\x", "a.log", true), "C:\\x\\a.log");
}

#[test]
fn logs_are_listed_newest_first_then_by_name() {
    let f = |name: &str, modified: Option<u64>| LogFile { name: name.into(), size: 1, modified };
    let ordered = order_logs(vec![
        f("b.log", Some(5)),
        f("none.log", None),
        f("a.log", Some(5)),
        f("new.log", Some(9)),
    ]);
    let names: Vec<_> = ordered.iter().map(|l| l.name.as_str()).collect();
    assert_eq!(names, ["new.log", "a.log", "b.log", "none.log"]);
}

#[test]
fn the_config_directory_is_found_under_the_project_identity() {
    assert_eq!(
        (blkbstr::paths::QUALIFIER, blkbstr::paths::ORGANIZATION, blkbstr::paths::APPLICATION),
        ("dev", "blkbstr", "blkbstr")
    );
}

#[test]
fn the_config_root_ends_where_the_platform_puts_this_project() {
    if let Some(root) = blkbstr::paths::config_dir() {
        assert!(
            root.ends_with("/blkbstr")
                || root.ends_with("/dev.blkbstr.blkbstr")
                || root.ends_with("blkbstr\\blkbstr\\config"),
            "{root}"
        );
        let configs = blkbstr::paths::configs_dir(false).unwrap();
        assert!(configs.starts_with(root.as_str()) && configs.ends_with("configs"), "{configs}");
        let backups = blkbstr::paths::backups_dir(false).unwrap();
        assert!(backups.starts_with(root.as_str()) && backups.ends_with("backups"), "{backups}");
    }
}
