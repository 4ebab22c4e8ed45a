use blkbstr::firewall::{parse_default_iface, ruleset, InterceptSpec, FWMARK};

#[test]
fn ruleset_starts_from_a_clean_table() {
    let s = ruleset(&InterceptSpec::new("wlan0", 200));
    let lines: Vec<_> = s.lines().take(3).collect();
    assert_eq!(
        lines,
        ["add table inet blkbstr", "delete table inet blkbstr", "add table inet blkbstr"]
    );
}

#[test]
fn every_queueing_rule_skips_the_engines_own_packets() {
    let s = ruleset(&InterceptSpec::new("eth0", 200));
    for line in s.lines().filter(|l| l.contains("postnat") && l.contains("queue num")) {
        assert!(
            line.contains(&format!("meta mark and {FWMARK} == 0")),
            "outgoing rule without a fwmark guard would loop: {line}"
        );
    }
    assert!(s.contains("notrack"), "engine packets must skip conntrack");
}

#[test]
fn omitting_a_protocol_omits_its_rules() {
    let mut spec = InterceptSpec::new("eth0", 200);
    spec.udp_ports = String::new();
    let s = ruleset(&spec);
    assert!(!s.contains("udp dport"), "{s}");
    assert!(s.contains("tcp dport"), "{s}");
}

#[test]
fn queue_number_reaches_every_rule() {
    let s = ruleset(&InterceptSpec::new("eth0", 137));
    let queueing = s.lines().filter(|l| l.contains("queue num")).count();
    assert_eq!(queueing, 7);
    assert_eq!(s.matches("queue num 137 bypass").count(), 7);
}

#[test]
fn match_expressions_are_not_quoted() {
    let s = ruleset(&InterceptSpec::new("eth0", 200));
    for line in s.lines() {
        let quoted: Vec<_> = line.match_indices('"').collect();
        assert!(
            quoted.len() % 2 == 0 && quoted.len() <= 2,
            "only the interface name may be quoted: {line}"
        );
    }
    assert!(s.contains("tcp flags & (syn | ack) == (syn | ack) queue num 200 bypass"));
}

#[test]
fn finds_the_default_route_interface() {
    let routes = "default via 192.168.1.1 dev wlan0 proto dhcp src 192.168.1.23 metric 600\n\
                  10.0.0.0/8 dev tun0 scope link";
    assert_eq!(parse_default_iface(routes).as_deref(), Some("wlan0"));
    assert_eq!(parse_default_iface("10.0.0.0/8 dev tun0"), None);
}

#[test]
fn a_new_spec_intercepts_the_web_ports() {
    let spec = InterceptSpec::new("eth0", 200);
    assert_eq!(spec.tcp_ports, "80,443");
    assert_eq!(spec.udp_ports, "443");
    assert_eq!(spec.max_pkt_out, 15);
    assert!(ruleset(&spec).contains("oifname \"eth0\""));
}

#[test]
fn a_default_route_without_a_device_has_no_interface() {
    assert_eq!(parse_default_iface("default via 10.0.0.1"), None);
    assert_eq!(parse_default_iface("default dev"), None);
}
