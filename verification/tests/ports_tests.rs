use blkbstr::config::{Config, Filter, Strategy};
use blkbstr::engine::engine_not_found;
use blkbstr::ports::{collect_ports, intercept_spec, Proto};

fn strategy(name: &str, tcp: Option<&str>, udp: Option<&str>) -> Strategy {
    let mut s = Strategy::new(name);
    s.filter = Filter {
        tcp: tcp.map(str::to_owned),
        udp: udp.map(str::to_owned),
        ..Filter::default()
    };
    s
}

#[test]
fn ports_are_merged_deduplicated_and_sorted() {
    let mut cfg = Config::new("t");
    cfg.strategies = vec![
        strategy("a", Some("443"), Some("443")),
        strategy("b", Some("80,443"), None),
    ];
    assert_eq!(collect_ports(&cfg.strategies, Proto::Tcp), "443,80");
    assert_eq!(collect_ports(&cfg.strategies, Proto::Udp), "443");
}

#[test]
fn wildcards_and_negations_are_not_treated_as_ports() {
    let cfg = vec![strategy("a", Some("*"), None), strategy("b", Some("~22,443"), None)];
    assert_eq!(collect_ports(&cfg, Proto::Tcp), "443");
}

#[test]
fn disabled_strategies_contribute_no_ports() {
    let mut cfg = Config::new("t");
    let mut off = strategy("off", Some("8080"), None);
    off.enabled = false;
    cfg.strategies = vec![off, strategy("on", Some("443"), None)];
    assert_eq!(collect_ports(&cfg.strategies, Proto::Tcp), "443");
}

#[test]
fn a_config_that_selects_nothing_is_refused() {
    let mut cfg = Config::new("t");
    cfg.strategies = vec![strategy("a", None, None)];
    assert!(intercept_spec(&cfg, 200, "eth0").is_err());
}

#[test]
fn missing_engine_binary_names_itself() {
    let e = engine_not_found("nfqws2-definitely-not-installed");
    assert!(e.contains("nfqws2-definitely-not-installed"));
}

#[test]
fn ports_are_trimmed_and_empty_pieces_dropped() {
    let cfg = vec![strategy("a", Some(" 443 , ,80"), Some(""))];
    assert_eq!(collect_ports(&cfg, Proto::Tcp), "443,80");
    assert_eq!(collect_ports(&cfg, Proto::Udp), "");
}

#[test]
fn an_intercept_spec_carries_the_ports_and_the_interface() {
    let mut cfg = Config::new("t");
    cfg.strategies = vec![strategy("a", Some("443,80"), Some("443"))];
    let spec = intercept_spec(&cfg, 200, "wlan0").unwrap();
    assert_eq!(spec.wan_iface, "wlan0");
    assert_eq!(spec.tcp_ports, "443,80");
    assert_eq!(spec.udp_ports, "443");
    assert_eq!(spec.queue_num, 200);
    assert_eq!(
        intercept_spec(&Config::new("t"), 200, "wlan0").unwrap_err(),
        "no enabled strategy selects any TCP or UDP port, so nothing would be intercepted"
    );
}
