use blkbstr::config::Config;
use blkbstr::daemon::{denial_hint, engine_failed, handle, outcome, Args, Handled};
use blkbstr::engine::EngineState;
use blkbstr::gui::parse_group;
use blkbstr::protocol::{ErrorCode, Request, Response, PROTOCOL_VERSION};

/// The engine is deliberately absent: these cover the paths that must answer sensibly on a
/// machine where zapret2 is not installed.
fn no_engine() -> Result<&'static EngineState, &'static str> {
    Err("nfqws2 not found")
}

#[test]
fn a_root_denial_says_what_could_have_refused_it() {
    let hint = denial_hint("nft rejected the ruleset: Operation not permitted", true);
    assert!(hint.is_some());
    assert!(denial_hint("nft rejected the ruleset: Operation not permitted", false).is_none());
    assert!(denial_hint("nfqws2 not found", true).is_none());
}

#[test]
fn ping_requires_a_matching_protocol() {
    assert!(matches!(
        handle(Request::Ping { protocol: PROTOCOL_VERSION }, no_engine(), "0.1.0", 0),
        Handled::Reply(Response::Pong { .. })
    ));
    assert!(matches!(
        handle(Request::Ping { protocol: PROTOCOL_VERSION + 1 }, no_engine(), "0.1.0", 0),
        Handled::Reply(Response::Error { code: ErrorCode::ProtocolMismatch, .. })
    ));
}

#[test]
fn start_rejects_invalid_configs_before_touching_the_engine() {
    let mut config = Config::new("ok");
    config.name = "../escape".into();
    assert!(matches!(
        handle(Request::Start { config: Box::new(config), ephemeral: false }, no_engine(), "0.1.0", 0),
        Handled::Reply(Response::Error { code: ErrorCode::BadRequest, .. })
    ));
}

#[test]
fn status_reports_a_missing_engine_instead_of_failing() {
    let Handled::Reply(Response::Status(status)) = handle(Request::Status, no_engine(), "0.1.0", 0)
    else {
        panic!("status must always answer with a status");
    };
    assert!(!status.running);
    assert_eq!(status.last_error.as_deref(), Some("nfqws2 not found"));
}

#[test]
fn start_without_an_engine_is_an_engine_failure() {
    assert!(matches!(
        handle(
            Request::Start { config: Box::new(Config::new("ok")), ephemeral: false },
            no_engine(),
            "0.1.0",
            0
        ),
        Handled::Reply(Response::Error { code: ErrorCode::EngineFailed, .. })
    ));
}

#[test]
fn parses_the_socket_group_argument() {
    let args = Args::parse(vec!["--socket-group-gid".to_string(), "1234".to_string()]);
    assert_eq!(args.socket_group_gid, Some(1234));
    assert_eq!(Args::parse(Vec::new()).socket_group_gid, None);
}

#[test]
fn reads_a_group_line() {
    let text = "root:x:0:\nwheel:x:998:dodo\nblkbstr:x:1001:dodo,ada\nempty:x:1002:\n";
    assert_eq!(
        parse_group(text, 1001),
        Some(("blkbstr".into(), vec!["dodo".into(), "ada".into()]))
    );
    assert_eq!(parse_group(text, 1002), Some(("empty".into(), vec![])));
    assert_eq!(parse_group(text, 4242), None);
}

#[test]
fn a_mismatched_ping_says_both_versions() {
    let Handled::Reply(Response::Error { message, .. }) =
        handle(Request::Ping { protocol: 2 }, no_engine(), "0.1.0", 0)
    else {
        panic!("a mismatch is an error");
    };
    assert_eq!(message, "daemon speaks protocol v1, client sent v2");
    let Handled::Reply(Response::Pong { daemon_version, protocol }) =
        handle(Request::Ping { protocol: 1 }, no_engine(), "0.1.0", 0)
    else {
        panic!("a matching ping is answered");
    };
    assert_eq!(daemon_version, "0.1.0");
    assert_eq!(protocol, 1);
}

#[test]
fn with_an_engine_operations_are_handed_out() {
    let state = EngineState::new(Some("v1".into()));
    assert!(matches!(handle(Request::Stop, Ok(&state), "0.1.0", 0), Handled::Stop));
    assert!(matches!(handle(Request::Confirm, Ok(&state), "0.1.0", 0), Handled::Confirm));
    assert!(matches!(
        handle(Request::Start { config: Box::new(Config::new("ok")), ephemeral: true }, Ok(&state), "0.1.0", 0),
        Handled::Start { ephemeral: true, .. }
    ));
    assert!(matches!(handle(Request::Stop, no_engine(), "0.1.0", 0), Handled::Reply(Response::Error { code: ErrorCode::EngineFailed, .. })));
    let Handled::Reply(Response::Status(status)) = handle(Request::Status, Ok(&state), "0.1.0", 0) else {
        panic!("status answers");
    };
    assert_eq!(status.engine_version.as_deref(), Some("v1"));
}

#[test]
fn a_failure_carries_the_hint_on_linux_only() {
    let Response::Error { code, message } = engine_failed("nft: Permission denied", true) else {
        panic!("an error");
    };
    assert_eq!(code, ErrorCode::EngineFailed);
    assert!(message.starts_with("nft: Permission denied (running as root"));
    let Response::Error { message, .. } = engine_failed("nft: Permission denied", false) else {
        panic!("an error");
    };
    assert_eq!(message, "nft: Permission denied");
    assert!(matches!(outcome(Ok(()), true), Response::Done));
}

#[test]
fn unknown_arguments_are_kept_and_version_stops_reading() {
    let args = Args::parse(vec!["--frob".into(), "--version".into(), "--socket-group-gid".into(), "7".into()]);
    assert!(args.show_version);
    assert_eq!(args.ignored, vec!["--frob".to_string()]);
    assert_eq!(args.socket_group_gid, None);
    let args = Args::parse(vec!["--socket-group-gid".into(), "nope".into()]);
    assert_eq!(args.socket_group_gid, None);
}
