use blkbstr::config::{Action, Config, ConfigError, Filter, Strategy, NFQWS2_COMPAT_VER, SCHEMA_VERSION};

fn sample() -> Config {
    let mut cfg = Config::new("home-isp");
    let mut https = Strategy::new("https");
    https.filter = Filter {
        tcp: Some("443".into()),
        l7: vec!["tls".into()],
        hostlist: Some("/etc/blkbstr/blocked.txt".into()),
        ..Filter::default()
    };
    https.actions = vec![
        Action::new("fake")
            .with("blob", "fake_default_tls")
            .with("badsum", "")
            .with("strategy", "1"),
        Action::new("multidisorder").with("strategy", "2"),
    ];
    cfg.strategies.push(https);
    cfg
}

#[test]
fn rejects_traversal_and_future_schemas() {
    for name in ["", "../etc", "a/b", ".hidden"] {
        let mut c = Config::new("ok");
        c.name = name.into();
        assert_eq!(c.validate(), Err(ConfigError::BadName), "{name:?}");
    }
    let mut c = Config::new("ok");
    c.schema = SCHEMA_VERSION + 1;
    assert!(c.validate().is_err());
}

#[test]
fn rejects_values_that_would_inject_an_option() {
    let mut cfg = Config::new("x");
    let mut s = Strategy::new("s");
    s.filter.hostlist = Some("/tmp/a\n--qnum=999".into());
    cfg.strategies.push(s);
    assert!(matches!(cfg.validate(), Err(ConfigError::UnsafeValue { .. })));

    let mut cfg = Config::new("x");
    let mut s = Strategy::new("s");
    s.actions.push(Action::new("fake").with("blob", "a:badsum"));
    cfg.strategies.push(s);
    assert!(matches!(cfg.validate(), Err(ConfigError::UnsafeValue { .. })));

    let mut cfg = Config::new("x");
    let mut s = Strategy::new("s");
    s.actions.push(Action::new("fake --qnum=1"));
    cfg.strategies.push(s);
    assert!(matches!(cfg.validate(), Err(ConfigError::BadToken { .. })));
}

#[test]
fn compat_mismatch_is_separate_from_validity() {
    let mut cfg = sample();
    cfg.compat = NFQWS2_COMPAT_VER - 1;
    cfg.validate().unwrap();
    assert!(cfg.compat_check().is_err());
}

#[test]
fn the_sample_config_is_valid() {
    sample().validate().unwrap();
    assert_eq!(sample().compat_check(), Ok(()));
}

#[test]
fn error_messages_name_the_problem() {
    let mut c = Config::new("ok");
    c.schema = 7;
    assert_eq!(
        c.validate().unwrap_err().message(),
        "config schema v7 is newer than supported v1"
    );
    assert_eq!(
        ConfigError::BadName.message(),
        "config name must be a non-empty single path segment"
    );
    assert_eq!(
        ConfigError::UnsafeValue { field: "hostlist", value: "a\nb".into() }.message(),
        "hostlist \"a\\nb\" contains a character that would inject an nfqws2 option"
    );
    assert_eq!(
        ConfigError::BadToken { field: "action function", value: "a b".into() }.message(),
        "action function \"a b\" is not a bare identifier"
    );
    let mut old = Config::new("ok");
    old.compat = 2;
    assert_eq!(
        old.compat_check().unwrap_err().message(),
        "config was written for nfqws2 compat v2, this build renders v3"
    );
}

#[test]
fn a_blank_name_is_refused() {
    let mut c = Config::new("ok");
    c.name = "   ".into();
    assert_eq!(c.validate(), Err(ConfigError::BadName));
    c.name = "a\\b".into();
    assert_eq!(c.validate(), Err(ConfigError::BadName));
}

#[test]
fn arguments_keep_key_order_and_last_value() {
    let a = Action::new("fake").with("strategy", "1").with("blob", "x").with("strategy", "2");
    assert_eq!(a.args.len(), 2);
    assert_eq!(a.args.get("strategy").map(|s| s.as_str()), Some("2"));
    assert_eq!(a.args.entry(0).0.as_str(), "blob");
    assert_eq!(a.args.get("missing"), None);
}
