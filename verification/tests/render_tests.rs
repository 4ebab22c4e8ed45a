use blkbstr::config::{Action, Config, Strategy};
use blkbstr::registry::Platform;
use blkbstr::render::{action_lines, parameter_file, run_args, starter_config, EngineOptions};

fn engine() -> EngineOptions {
    EngineOptions {
        platform: Platform::Linux,
        queue_num: 200,
        pidfile: "/run/blkbstr/engine.pid".into(),
        debug_log: Some("/var/log/blkbstr/engine.log".into()),
        lua_init: vec!["/opt/zapret2/lua/zapret-lib.lua".into()],
        validate: false,
    }
}

#[test]
fn renders_a_starter_config() {
    let out = parameter_file(&starter_config("t"), &engine());
    let lines: Vec<_> = out.lines().filter(|l| !l.is_empty()).collect();
    assert_eq!(
        lines,
        [
            "--qnum=200",
            "--pidfile=/run/blkbstr/engine.pid",
            "--debug=@/var/log/blkbstr/engine.log",
            "--lua-init=@/opt/zapret2/lua/zapret-lib.lua",
            "--name=https",
            "--filter-tcp=443",
            "--filter-l7=tls",
            "--payload=tls_client_hello",
            "--lua-desync=fake:badsum:blob=fake_default_tls",
            "--payload=tls_client_hello",
            "--lua-desync=multidisorder:pos=1,midsld",
        ]
    );
}

#[test]
fn validation_goes_in_the_file_not_in_argv() {
    let out = parameter_file(&starter_config("t"), &EngineOptions { validate: true, ..engine() });
    assert_eq!(out.lines().next(), Some("--intercept=0"));
    assert_eq!(run_args("/run/blkbstr/nfqws2.conf").len(), 1);
}

#[test]
fn empty_argument_values_render_as_bare_flags() {
    let action = Action::new("fake").with("badsum", "").with("strategy", "1");
    assert_eq!(action_lines(&action), ["--lua-desync=fake:badsum:strategy=1"]);
}

#[test]
fn action_order_survives_rendering() {
    let mut config = Config::new("t");
    let mut s = Strategy::new("s");
    s.actions = vec![Action::new("circular"), Action::new("fake"), Action::new("multisplit")];
    config.strategies.push(s);

    let out = parameter_file(&config, &engine());
    let calls: Vec<_> = out.lines().filter(|l| l.starts_with("--lua-desync")).collect();
    assert_eq!(calls, ["--lua-desync=circular", "--lua-desync=fake", "--lua-desync=multisplit"]);
}

#[test]
fn disabled_strategies_are_not_rendered() {
    let mut config = starter_config("t");
    config.strategies[0].enabled = false;
    let out = parameter_file(&config, &engine());
    assert!(!out.contains("--name=") && !out.contains("--new="), "{out}");
}

#[test]
fn queue_number_is_linux_only() {
    let config = starter_config("t");
    for platform in [Platform::Windows, Platform::Bsd] {
        let out = parameter_file(&config, &EngineOptions { platform, ..engine() });
        assert!(!out.contains("--qnum"), "{platform:?}: {out}");
    }
}

#[test]
fn every_rendered_line_is_a_single_option() {
    let config = starter_config("t");
    config.validate().unwrap();
    for line in parameter_file(&config, &engine()).lines() {
        assert!(line.is_empty() || line.starts_with("--"), "unexpected line {line:?}");
    }
}

#[test]
fn the_run_arguments_point_at_the_file() {
    assert_eq!(run_args("/run/blkbstr/nfqws2.conf"), ["@/run/blkbstr/nfqws2.conf"]);
}

#[test]
fn a_second_profile_opens_with_new() {
    let mut config = starter_config("t");
    let mut second = Strategy::new("quic");
    second.actions.push(Action::new("fake"));
    config.strategies.push(second);
    let out = parameter_file(&config, &engine());
    assert_eq!(out.matches("--name=").count(), 1);
    assert!(out.contains("--new=quic"), "{out}");
}

#[test]
fn default_engine_options_for_each_platform() {
    let linux = EngineOptions::new(Platform::Linux);
    assert_eq!(linux.queue_num, 200);
    assert!(!linux.validate);
    assert!(linux.lua_init.is_empty());
}

#[test]
fn renders_the_documented_example_with_l7_before_the_host_list() {
    let mut config = Config::new("home-isp");
    let mut s = Strategy::new("https");
    s.filter.tcp = Some("443".into());
    s.filter.l7 = vec!["tls".into()];
    s.filter.hostlist = Some("/etc/blkbstr/blocked.txt".into());
    let mut fake = Action::new("fake")
        .with("blob", "fake_default_tls")
        .with("badsum", "")
        .with("strategy", "1");
    fake.payload = vec!["tls_client_hello".into()];
    let mut disorder = Action::new("multidisorder").with("strategy", "2");
    disorder.payload = vec!["tls_client_hello".into()];
    s.actions = vec![fake, disorder];
    config.strategies.push(s);
    assert!(config.validate().is_ok());

    let out = parameter_file(&config, &EngineOptions::new(Platform::Linux));
    let lines: Vec<_> = out.lines().filter(|l| !l.is_empty()).collect();
    assert_eq!(
        lines,
        [
            "--qnum=200",
            "--name=https",
            "--filter-tcp=443",
            "--filter-l7=tls",
            "--hostlist=/etc/blkbstr/blocked.txt",
            "--payload=tls_client_hello",
            "--lua-desync=fake:badsum:blob=fake_default_tls:strategy=1",
            "--payload=tls_client_hello",
            "--lua-desync=multidisorder:strategy=2",
        ]
    );
}

#[test]
fn a_carriage_return_in_an_engine_path_starts_no_line() {
    let engine = EngineOptions {
        pidfile: "/run/a\rb.pid".into(),
        debug_log: Some("/var/log/x.log\r".into()),
        ..engine()
    };
    let out = parameter_file(&starter_config("t"), &engine);
    assert!(out.ends_with('\n'));
    for line in out.lines() {
        assert!(line.is_empty() || line.starts_with("--"), "unexpected line {line:?}");
    }
    assert!(out.lines().any(|l| l == "--debug=@/var/log/x.log"));
}
