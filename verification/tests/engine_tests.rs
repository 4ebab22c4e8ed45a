use blkbstr::config::Config;
use blkbstr::engine::{
    check_file_path, parameter_argument, parameter_file_path, revert_after_secs, run_options,
    runs_with_argument, version_line, EngineState, Step, QUEUE_NUM,
};
use blkbstr::registry::Platform;
use blkbstr::supervisor::Decision;

#[test]
fn a_trial_run_is_reverted_when_its_time_is_up() {
    let mut e = EngineState::new(None);
    e.spawned(Config::new("t"), true, 42, Some(1), 1_000, 120_000);
    assert_eq!(e.next_step(1_000), Step::Watch);
    assert_eq!(e.status(1_000).revert_in_seconds, Some(120));
    assert_eq!(e.status(61_500).revert_in_seconds, Some(59));
    assert_eq!(e.next_step(121_000), Step::Revert);
    e.stopped();
    e.note_revert(Ok(()));
    assert_eq!(
        e.status(121_000).last_error.as_deref(),
        Some("the trial run was not confirmed, so it was reverted")
    );
    assert!(!e.status(121_000).running);
}

#[test]
fn confirming_keeps_the_run() {
    let mut e = EngineState::new(None);
    assert_eq!(e.confirm().unwrap_err(), "nothing is running, so there is nothing to keep");
    e.spawned(Config::new("t"), true, 42, None, 0, 5_000);
    e.confirm().unwrap();
    assert_eq!(e.next_step(10_000), Step::Watch);
    let st = e.status(10_000);
    assert!(!st.ephemeral);
    assert_eq!(st.revert_in_seconds, None);
    assert_eq!(st.active_config.as_deref(), Some("t"));
}

#[test]
fn an_ephemeral_run_that_dies_is_not_restarted() {
    let mut e = EngineState::new(None);
    e.spawned(Config::new("t"), true, 42, None, 0, 120_000);
    assert_eq!(e.exited(5_000, "signal: 9"), None);
    assert!(e.active_config().is_none());
    assert_eq!(e.next_step(200_000), Step::Idle);
    assert_eq!(e.last_error(), Some("engine exited: signal: 9"));
}

#[test]
fn a_kept_run_that_dies_comes_back_after_the_backoff() {
    let mut e = EngineState::new(None);
    e.spawned(Config::new("t"), false, 42, None, 0, 120_000);
    assert_eq!(e.exited(5_000, "exit status: 1"), Some(Decision::RestartAfter(1_000)));
    assert_eq!(e.next_step(5_500), Step::Idle);
    assert_eq!(e.next_step(6_000), Step::Restart);
    assert!(e.begin_restart());
    assert_eq!(e.active_config().map(|c| c.name.as_str()), Some("t"));
    e.restart_failed("boom".into());
    assert_eq!(e.last_error(), Some("boom"));
}

#[test]
fn a_crash_loop_is_left_down_with_a_reason() {
    let mut e = EngineState::new(None);
    for _ in 0..5 {
        e.spawned(Config::new("t"), false, 42, None, 0, 0);
        assert!(matches!(e.exited(1_000, "exit status: 1"), Some(Decision::RestartAfter(_))));
    }
    e.spawned(Config::new("t"), false, 42, None, 0, 0);
    assert_eq!(
        e.exited(2_000, "exit status: 1"),
        Some(Decision::GiveUp { restarts: 5, window: 60_000 })
    );
    assert!(e.active_config().is_none());
    assert_eq!(
        e.last_error(),
        Some("engine exited 5 times in 60s and was left down; last exit: exit status: 1")
    );
}

#[test]
fn a_deliberate_start_plan_validates_and_says_what_to_do() {
    let mut e = EngineState::new(None);
    let plan = e.start_plan(&Config::new("t"), true).unwrap();
    assert!(!plan.stop_first && !plan.persist);
    e.spawned(Config::new("t"), false, 7, None, 0, 0);
    let plan = e.start_plan(&Config::new("t"), false).unwrap();
    assert!(plan.stop_first && plan.persist);
    let mut bad = Config::new("t");
    bad.name = "../x".into();
    assert!(e.start_plan(&bad, false).is_err());
    e.shut_down();
    assert_eq!(e.next_step(0), Step::Idle);
}

#[test]
fn the_revert_window_can_be_overridden() {
    assert_eq!(revert_after_secs(None), 120);
    assert_eq!(revert_after_secs(Some("5")), 5);
    assert_eq!(revert_after_secs(Some("soon")), 120);
}

#[test]
fn the_engine_version_is_its_first_line() {
    assert_eq!(version_line("nfqws2 v0.9.4\nmore\n").as_deref(), Some("nfqws2 v0.9.4"));
    assert_eq!(version_line("   \n"), None);
    assert_eq!(version_line(""), None);
}

#[test]
fn a_left_behind_engine_is_recognised_by_its_parameter_file() {
    let cmdline = b"/opt/zapret2/nfqws2\0@/run/blkbstr/nfqws2.conf\0";
    assert!(runs_with_argument(cmdline, b"@/run/blkbstr/nfqws2.conf"));
    assert!(runs_with_argument(cmdline, b"/opt/zapret2/nfqws2"));
    assert!(!runs_with_argument(cmdline, b"@/run/blkbstr"));
    assert!(!runs_with_argument(b"", b"x"));
    assert!(runs_with_argument(b"", b""));
}

#[test]
fn a_run_keeps_its_files_in_the_runtime_directory() {
    let options = run_options(Platform::Linux, "/run/blkbstr", "/var/log/blkbstr", vec!["/opt/zapret2/lua/zapret-lib.lua".into()], true, false);
    assert_eq!(options.queue_num, QUEUE_NUM);
    assert_eq!(options.pidfile, "/run/blkbstr/engine.pid");
    assert_eq!(options.debug_log.as_deref(), Some("/var/log/blkbstr/engine.log"));
    assert!(options.validate);
    assert_eq!(parameter_file_path("/run/blkbstr", false), "/run/blkbstr/nfqws2.conf");
    assert_eq!(check_file_path("/run/blkbstr/", false), "/run/blkbstr/nfqws2-check.conf");
    assert_eq!(parameter_argument("/run/blkbstr", false), "@/run/blkbstr/nfqws2.conf");
}
