use blkbstr::reachability::{
    check_hostname, choose_address, client_hello, client_hello_with, failed, is_sinkhole,
    refused_host, resolved, verdict_for, Exchange, Ip, Report, Resolution, SiteResult, Verdict,
};

/// Walks the bytes the way a server would, so a wrong length field fails here rather than
/// looking like a blocked site later.
fn sni_from(hello: &[u8]) -> Option<String> {
    assert_eq!(hello[0], 0x16, "record type");
    let record_len = u16::from_be_bytes([hello[3], hello[4]]) as usize;
    assert_eq!(record_len, hello.len() - 5, "record length");

    let handshake = &hello[5..];
    assert_eq!(handshake[0], 0x01, "ClientHello");
    let body_len = u32::from_be_bytes([0, handshake[1], handshake[2], handshake[3]]) as usize;
    assert_eq!(body_len, handshake.len() - 4, "handshake length");

    let mut at = 4 + 2 + 32;
    at += 1 + handshake[at] as usize;
    at += 2 + u16::from_be_bytes([handshake[at], handshake[at + 1]]) as usize;
    at += 1 + handshake[at] as usize;
    let extensions_len = u16::from_be_bytes([handshake[at], handshake[at + 1]]) as usize;
    at += 2;
    assert_eq!(extensions_len, handshake.len() - at, "extensions length");

    let mut rest = &handshake[at..];
    while rest.len() >= 4 {
        let kind = u16::from_be_bytes([rest[0], rest[1]]);
        let len = u16::from_be_bytes([rest[2], rest[3]]) as usize;
        let body = &rest[4..4 + len];
        if kind == 0x0000 {
            let name_len = u16::from_be_bytes([body[3], body[4]]) as usize;
            return Some(String::from_utf8(body[5..5 + name_len].to_vec()).unwrap());
        }
        rest = &rest[4 + len..];
    }
    None
}

#[test]
fn the_hello_carries_the_hostname_a_server_would_read() {
    assert_eq!(sni_from(&client_hello("www.youtube.com")).as_deref(), Some("www.youtube.com"));
    let long = format!("{}.example.com", "a".repeat(200));
    assert_eq!(sni_from(&client_hello(&long)).as_deref(), Some(&*long));
}

#[test]
fn two_hellos_do_not_look_like_one_replayed_packet() {
    let a = client_hello("example.com");
    let b = client_hello("example.com");
    assert_ne!(a, b);
    assert_eq!(a.len(), b.len());
}

#[test]
fn addresses_nothing_can_be_hosted_on_read_as_poisoned() {
    for ip in [Ip::V4(127, 0, 0, 1), Ip::V4(0, 0, 0, 0), Ip::V4(10, 1, 2, 3), Ip::V4(192, 168, 0, 1)] {
        assert!(is_sinkhole(ip), "{ip:?}");
    }
    assert!(!is_sinkhole(Ip::V4(93, 184, 215, 14)));
    assert!(is_sinkhole(Ip::V6(1)));
    assert!(!is_sinkhole(Ip::V6(0x2606_2800_021f_cb07_6820_80da_af6b_8b2c)));
}

#[test]
fn a_hostname_that_would_not_fit_the_sni_field_is_refused() {
    assert!(check_hostname("www.youtube.com").is_ok());
    assert!(check_hostname("").is_err());
    assert!(check_hostname(&"a".repeat(254)).is_err());
    assert!(check_hostname("пример.рф").is_err());
    assert!(check_hostname("host name").is_err());
}

#[test]
fn a_server_that_answers_is_reachable() {
    let (v, d) = verdict_for("127.0.0.1", Exchange::Replied { n: 5, first: 0x16 }, "300ms");
    assert_eq!(v, Verdict::Fine);
    assert_eq!(d.as_deref(), Some("127.0.0.1"));
}

#[test]
fn an_alert_still_counts_as_an_answer() {
    let (verdict, detail) = verdict_for("127.0.0.1", Exchange::Replied { n: 7, first: 0x15 }, "300ms");
    assert_eq!(verdict, Verdict::Fine);
    assert!(detail.unwrap().contains("alert"));
}

#[test]
fn a_connection_that_dies_after_the_hello_is_a_reset() {
    assert_eq!(verdict_for("127.0.0.1", Exchange::Closed, "300ms").0, Verdict::TlsReset);
    assert_eq!(verdict_for("127.0.0.1", Exchange::Replied { n: 0, first: 0 }, "300ms").0, Verdict::TlsReset);
}

#[test]
fn a_connection_that_never_answers_is_silent() {
    let (v, d) = verdict_for("127.0.0.1", Exchange::TimedOut, "300ms");
    assert_eq!(v, Verdict::TlsSilent);
    assert_eq!(d.as_deref(), Some("127.0.0.1: no answer in 300ms"));
}

#[test]
fn something_that_is_not_tls_is_not_an_answer() {
    let (v, d) = verdict_for("127.0.0.1", Exchange::Replied { n: 24, first: b'H' }, "300ms");
    assert_eq!(v, Verdict::TlsReset);
    assert_eq!(d.as_deref(), Some("127.0.0.1: 24 bytes, not a TLS record"));
}

#[test]
fn a_port_with_nothing_on_it_is_a_tcp_block() {
    let (v, d) = verdict_for("127.0.0.1", Exchange::ConnectFailed("Connection refused (os error 111)".into()), "300ms");
    assert_eq!(v, Verdict::TcpBlocked);
    assert_eq!(d.as_deref(), Some("127.0.0.1: Connection refused (os error 111)"));
}

#[test]
fn the_first_real_address_is_used() {
    assert_eq!(choose_address(&vec![Ip::V4(127, 0, 0, 1), Ip::V4(1, 1, 1, 1)]), Resolution::Use(1));
    assert_eq!(choose_address(&vec![Ip::V4(10, 0, 0, 1), Ip::V6(0)]), Resolution::Poisoned(Ip::V4(10, 0, 0, 1)));
    assert_eq!(choose_address(&Vec::new()), Resolution::Nothing);
}

#[test]
fn a_report_counts_what_is_blocked() {
    let site = |host: &str, verdict| SiteResult { host: host.into(), verdict, detail: None, elapsed_ms: 1 };
    let report = Report::new(
        site("example.com", Verdict::Fine),
        vec![site("a", Verdict::Fine), site("b", Verdict::TlsReset), site("c", Verdict::DnsPoisoned)],
    );
    assert!(report.network_ok);
    assert_eq!(report.blocked_count(), 2);
    assert!(!Report::new(failed("example.com"), Vec::new()).network_ok);
    assert_eq!(failed("x").detail.as_deref(), Some("the check itself panicked"));
    assert!(Verdict::BadHost.blocked());
    assert!(!Verdict::Fine.blocked());
}

#[test]
fn the_hello_has_a_fixed_layout_around_the_random() {
    let random = vec![0xabu8; 32];
    let hello = client_hello_with("x.com", &random);
    assert_eq!(&hello[..5], &[0x16, 0x03, 0x01, 0x00, (hello.len() - 5) as u8]);
    assert_eq!(&hello[11..43], &random[..]);
    assert_eq!(sni_from(&hello).as_deref(), Some("x.com"));
}

#[test]
fn an_unusable_hostname_is_refused_before_anything_is_sent() {
    let (verdict, detail) = refused_host("host name").unwrap();
    assert_eq!(verdict, Verdict::BadHost);
    assert_eq!(detail, Some(check_hostname("host name").unwrap_err().to_owned()));
    assert!(refused_host("www.youtube.com").is_none());
}

#[test]
fn a_resolution_leads_to_an_address_or_a_verdict() {
    assert_eq!(resolved(Resolution::Use(2), "1.1.1.1"), Ok(2));
    assert_eq!(
        resolved(Resolution::Poisoned(Ip::V4(10, 0, 0, 1)), "10.0.0.1"),
        Err((Verdict::DnsPoisoned, Some("10.0.0.1".to_owned())))
    );
    assert_eq!(
        resolved(Resolution::Nothing, ""),
        Err((Verdict::DnsFailed, Some("no addresses returned".to_owned())))
    );
}
