use ec_core::addr::{Ipv4Addr, SocketAddrV4};
use ec_core::socks_proxy::{
    ensure_http_connect_success, greeting, http_connect_request, negotiate_socks5_proxy_no_auth,
    parse_fallback_proxy, parse_fallback_proxy_value, read_http_proxy_head,
    read_socks5_connect_reply, socks5_reply_name, write_socks5_connect_request, FallbackProxyKind,
    HeadStep, ReplyStep, HTTP_PROXY_HEAD_MAX_SIZE,
};
use ec_core::socks_wire::{
    encode_socks_udp_packet, negotiate_method, parse_socks_udp_packet, read_socks_request,
    write_bound_reply, write_reply, NegotiateStep, RequestStep, SocksCommand,
};

#[test]
fn socks_wire_socks_command_maps_known_values() {
    assert_eq!(SocksCommand::from_byte(0x01), SocksCommand::Connect);
    assert_eq!(SocksCommand::from_byte(0x03), SocksCommand::UdpAssociate);
    assert_eq!(SocksCommand::from_byte(0x02), SocksCommand::Other(0x02));
}

#[test]
fn socks_wire_parse_socks_udp_packet_reads_ipv4_target() {
    let raw = [0, 0, 0, 1, 10, 50, 2, 206, 0, 53, b'q', b'1'];
    let packet = parse_socks_udp_packet(&raw).unwrap();
    assert_eq!(packet.target.host(), "10.50.2.206");
    assert_eq!(packet.target.port(), 53);
    assert_eq!(packet.payload, b"q1");
}

#[test]
fn socks_wire_parse_socks_udp_packet_reads_domain_target() {
    let raw = [0, 0, 0, 3, 7, b'e', b'x', b'a', b'm', b'p', b'l', b'e', 0, 53, b'q'];
    let packet = parse_socks_udp_packet(&raw).unwrap();
    assert_eq!(packet.target.host(), "example");
    assert_eq!(packet.target.port(), 53);
    assert_eq!(packet.payload, b"q");
}

#[test]
fn socks_wire_parse_socks_udp_packet_rejects_fragments() {
    let raw = [0, 0, 1, 1, 10, 50, 2, 206, 0, 53];
    assert!(parse_socks_udp_packet(&raw).is_err());
}

#[test]
fn socks_wire_encode_socks_udp_packet_writes_ipv4_source() {
    let source = SocketAddrV4::new(Ipv4Addr::new(10, 50, 2, 206), 53);
    let packet = encode_socks_udp_packet(source, b"ans");
    assert_eq!(packet, vec![0, 0, 0, 1, 10, 50, 2, 206, 0, 53, b'a', b'n', b's']);
}

#[test]
fn datagrams_round_trip() {
    let source = SocketAddrV4::new(Ipv4Addr::new(1, 2, 3, 255), 65535);
    let packet = parse_socks_udp_packet(&encode_socks_udp_packet(source, b"")).unwrap();
    assert_eq!(packet.target.to_string(), source.to_string());
    assert!(packet.payload.is_empty());
}

#[test]
fn malformed_datagrams_are_told_apart() {
    for (raw, why) in [
        (vec![0, 0, 0], "udp packet header is too short"),
        (vec![0, 1, 0, 1], "udp packet with non-zero RSV is not supported"),
        (vec![0, 0, 9, 1], "fragmented udp packet is not supported"),
        (vec![0, 0, 0, 1, 1, 2, 3], "udp ipv4 address is truncated"),
        (vec![0, 0, 0, 1, 1, 2, 3, 4, 0], "udp port is truncated"),
        (vec![0, 0, 0, 3], "udp domain length is truncated"),
        (vec![0, 0, 0, 3, 2, b'a'], "udp domain is truncated"),
        (vec![0, 0, 0, 3, 1, b'a', 1], "udp port is truncated"),
        (vec![0, 0, 0, 4, 1], "udp ipv6 targets are not supported yet"),
        (vec![0, 0, 0, 5, 1], "unsupported udp atyp: 0x05"),
        (
            vec![0, 0, 0, 3, 1, 0xff, 0, 1],
            "invalid udp domain utf8: invalid utf-8 sequence of 1 bytes from index 0",
        ),
    ] {
        assert_eq!(
            parse_socks_udp_packet(&raw).unwrap_err().to_string(),
            format!("runtime failure: {why}")
        );
    }
}

#[test]
fn greetings_must_offer_no_authentication() {
    assert!(matches!(
        negotiate_method(&[]),
        NegotiateStep::Need { count: 2, label: "socks hello read failed" }
    ));
    assert!(matches!(
        negotiate_method(&[5, 3, 9]),
        NegotiateStep::Need { count: 2, label: "socks methods read failed" }
    ));
    assert!(matches!(negotiate_method(&[4, 1]), NegotiateStep::Refused(_)));
    assert!(matches!(
        negotiate_method(&[5, 2, 2, 0]),
        NegotiateStep::Accept { reply: [5, 0], .. }
    ));
    assert!(matches!(
        negotiate_method(&[5, 1, 2]),
        NegotiateStep::Reject { reply: [5, 0xff], .. }
    ));
    assert!(matches!(negotiate_method(&[5, 0]), NegotiateStep::Reject { .. }));
}

fn request(data: &[u8]) -> (SocksCommand, String) {
    match read_socks_request(data) {
        RequestStep::Done(r) => (r.command, r.target.to_string()),
        _ => panic!("expected a request"),
    }
}

fn refusal(data: &[u8]) -> (Option<u8>, String) {
    match read_socks_request(data) {
        RequestStep::Refused { reply, error } => (reply, error.to_string()),
        _ => panic!("expected a refusal"),
    }
}

#[test]
fn requests_are_read() {
    assert_eq!(
        request(&[5, 1, 0, 1, 10, 0, 0, 1, 1, 187]),
        (SocksCommand::Connect, "10.0.0.1:443".to_string())
    );
    assert_eq!(
        request(&[5, 3, 0, 3, 1, b'a', 0, 53]),
        (SocksCommand::UdpAssociate, "a:53".to_string())
    );
    assert_eq!(
        request(&[5, 1, 0, 4, 0x20, 1, 0xd, 0xb8, 0, 0, 0, 0, 0, 0, 0, 0, 0, 0, 0, 1, 0, 80]),
        (SocksCommand::Connect, "2001:db8::1:80".to_string())
    );
}

#[test]
fn requests_are_read_piece_by_piece() {
    let whole = [5, 1, 0, 3, 2, b'a', b'b', 0, 53];
    let mut data: Vec<u8> = vec![];
    let mut labels = vec![];
    loop {
        match read_socks_request(&data) {
            RequestStep::Need { count, label } => {
                labels.push(label);
                let at = data.len();
                data.extend_from_slice(&whole[at..at + count]);
            }
            RequestStep::Done(r) => {
                assert_eq!(r.target.to_string(), "ab:53");
                break;
            }
            RequestStep::Refused { .. } => panic!("expected a request"),
        }
    }
    assert_eq!(data, whole);
    assert_eq!(
        labels,
        vec![
            "socks request head read failed",
            "read domain length failed",
            "read domain failed",
            "read target port failed"
        ]
    );
}

#[test]
fn bad_requests_are_refused() {
    assert_eq!(
        refusal(&[4, 1, 0, 1]),
        (None, "runtime failure: invalid socks request version".to_string())
    );
    assert_eq!(
        refusal(&[5, 2, 0, 1]),
        (Some(7), "runtime failure: unsupported socks command: 0x02".to_string())
    );
    assert_eq!(
        refusal(&[5, 1, 9, 1]),
        (Some(1), "runtime failure: invalid socks reserved byte".to_string())
    );
    assert_eq!(
        refusal(&[5, 1, 0, 2]),
        (Some(8), "runtime failure: unsupported socks atyp: 0x02".to_string())
    );
    assert_eq!(refusal(&[5, 1, 0, 3, 1, 0x80]).0, None);
}

#[test]
fn replies_have_ten_bytes() {
    assert_eq!(write_reply(7), vec![5, 7, 0, 1, 0, 0, 0, 0, 0, 0]);
    assert_eq!(
        write_bound_reply(0, SocketAddrV4::new(Ipv4Addr::new(127, 0, 0, 1), 1080)),
        vec![5, 0, 0, 1, 127, 0, 0, 1, 4, 56]
    );
}

#[test]
fn parse_fallback_proxy_accepts_socks5_scheme() {
    let parsed = parse_fallback_proxy(Some("socks5://127.0.0.1:114514")).unwrap();
    assert_eq!(parsed.unwrap().addr, "127.0.0.1:114514");
}

#[test]
fn parse_fallback_proxy_accepts_plain_host_port() {
    let parsed = parse_fallback_proxy(Some("127.0.0.1:114514")).unwrap();
    let proxy = parsed.unwrap();
    assert_eq!(proxy.addr, "127.0.0.1:114514");
    assert_eq!(proxy.url, "socks5h://127.0.0.1:114514");
}

#[test]
fn parse_fallback_proxy_accepts_http_scheme() {
    let parsed = parse_fallback_proxy(Some("http://127.0.0.1:8080")).unwrap();
    let proxy = parsed.unwrap();
    assert_eq!(proxy.addr, "127.0.0.1:8080");
    assert_eq!(proxy.url, "http://127.0.0.1:8080");
}

#[test]
fn parse_fallback_proxy_rejects_unsupported_scheme() {
    let err = match parse_fallback_proxy(Some("https://127.0.0.1:8443")) {
        Ok(_) => panic!("expected unsupported fallback scheme to fail"),
        Err(err) => err,
    };
    assert!(
        err.to_string()
            .contains("only socks5://, socks5h:// and http:// are supported")
    );
}

#[test]
fn parse_fallback_proxy_handles_blank_values() {
    assert!(parse_fallback_proxy(None).unwrap().is_none());
    assert!(parse_fallback_proxy(Some("  ")).unwrap().is_none());
    assert_eq!(
        parse_fallback_proxy(Some("socks5h:// ")).unwrap_err().to_string(),
        "invalid config: fallback is invalid: empty proxy address"
    );
}

#[test]
fn proxies_are_asked_to_connect() {
    assert_eq!(greeting(), [5, 1, 0]);
    assert!(negotiate_socks5_proxy_no_auth([5, 0]).is_ok());
    assert_eq!(
        negotiate_socks5_proxy_no_auth([4, 0xff]).unwrap_err().to_string(),
        "runtime failure: fallback proxy auth method unsupported: version=0x04 method=0xff"
    );
    assert_eq!(
        write_socks5_connect_request(" 10.0.0.1 ", 80).unwrap(),
        vec![5, 1, 0, 1, 10, 0, 0, 1, 0, 80]
    );
    assert_eq!(
        write_socks5_connect_request("ab", 443).unwrap(),
        vec![5, 1, 0, 3, 2, b'a', b'b', 1, 187]
    );
    assert_eq!(
        write_socks5_connect_request("::1", 1).unwrap(),
        vec![5, 1, 0, 4, 0, 0, 0, 0, 0, 0, 0, 0, 0, 0, 0, 0, 0, 0, 0, 1, 0, 1]
    );
    assert!(write_socks5_connect_request(" ", 1).is_err());
    assert!(write_socks5_connect_request(&"\u{e4}".repeat(128), 1).is_err());
    assert!(write_socks5_connect_request(&"a".repeat(255), 1).is_ok());
    assert_eq!(
        http_connect_request("::1", 443),
        "CONNECT [::1]:443 HTTP/1.1\r\nHost: [::1]:443\r\nConnection: keep-alive\r\nProxy-Connection: keep-alive\r\n\r\n"
    );
}

#[test]
fn proxy_replies_are_read_piece_by_piece() {
    assert!(matches!(
        read_socks5_connect_reply(&[5]),
        ReplyStep::Need { count: 3, label: "proxy connect reply read failed" }
    ));
    assert!(matches!(
        read_socks5_connect_reply(&[5, 0, 0, 1]),
        ReplyStep::Need { count: 4, label: "read proxy bind ipv4 failed" }
    ));
    assert!(matches!(
        read_socks5_connect_reply(&[5, 0, 0, 1, 0, 0, 0, 0]),
        ReplyStep::Need { count: 2, label: "read proxy bind port failed" }
    ));
    assert!(matches!(
        read_socks5_connect_reply(&[5, 0, 0, 1, 0, 0, 0, 0, 0, 0]),
        ReplyStep::Done
    ));
    assert!(matches!(read_socks5_connect_reply(&[5, 0, 0, 3, 1, 9, 0, 0]), ReplyStep::Done));
    assert!(matches!(
        read_socks5_connect_reply(&[5, 0, 0, 4]),
        ReplyStep::Need { count: 16, .. }
    ));
    let failed = |data: &[u8]| match read_socks5_connect_reply(data) {
        ReplyStep::Failed(e) => e.to_string(),
        _ => panic!("expected a failure"),
    };
    assert_eq!(
        failed(&[4, 0, 0, 1]),
        "runtime failure: invalid fallback proxy reply version: 0x04"
    );
    assert_eq!(
        failed(&[5, 5, 0, 1]),
        "runtime failure: fallback proxy connect rejected with code: 0x05 (connection refused)"
    );
    assert_eq!(
        failed(&[5, 0, 0, 9]),
        "runtime failure: unsupported fallback proxy bind atyp: 0x09"
    );
    assert_eq!(socks5_reply_name(8), "address type not supported");
    assert_eq!(socks5_reply_name(9), "unknown reply code");
}

#[test]
fn http_heads_end_with_an_empty_line() {
    let mut buf = vec![];
    let text = b"HTTP/1.1 200 OK\r\nX: \xff\r\n\r\n";
    for (i, b) in text.iter().enumerate() {
        match read_http_proxy_head(&mut buf, Some(*b)) {
            HeadStep::More => assert!(i + 1 < text.len()),
            HeadStep::Complete(head) => {
                assert_eq!(i + 1, text.len());
                assert_eq!(head, "HTTP/1.1 200 OK\r\nX: \u{fffd}\r\n\r\n");
            }
            HeadStep::Failed(_) => panic!("expected a head"),
        }
    }
    let mut none = vec![];
    assert!(matches!(
        read_http_proxy_head(&mut none, None),
        HeadStep::Failed(e) if e.to_string() == "runtime failure: http proxy connect reply is empty"
    ));
    let mut long = vec![b'x'; HTTP_PROXY_HEAD_MAX_SIZE - 1];
    assert!(matches!(read_http_proxy_head(&mut long, Some(b'x')), HeadStep::More));
    assert!(matches!(
        read_http_proxy_head(&mut long, Some(b'x')),
        HeadStep::Failed(e) if e.to_string() == "runtime failure: http proxy connect reply header is too large"
    ));
}

#[test]
fn http_connect_success_accepts_200() {
    ensure_http_connect_success("HTTP/1.1 200 Connection Established\r\n\r\n").unwrap();
}

#[test]
fn http_connect_success_rejects_non_200() {
    let err = ensure_http_connect_success("HTTP/1.1 407 Proxy Authentication Required\r\n\r\n")
        .unwrap_err();
    assert!(err.to_string().contains("http proxy connect rejected"));
}

#[test]
fn http_connect_success_rejects_non_http_response() {
    let err = ensure_http_connect_success("HELLO\r\n\r\n").unwrap_err();
    assert!(err.to_string().contains("invalid http proxy connect reply"));
}

#[test]
fn http_connect_success_needs_a_status() {
    assert_eq!(
        ensure_http_connect_success("HTTP/1.1\r\n").unwrap_err().to_string(),
        "runtime failure: invalid http proxy connect status line: HTTP/1.1"
    );
    assert_eq!(
        ensure_http_connect_success("").unwrap_err().to_string(),
        "runtime failure: invalid http proxy connect reply: "
    );
    assert!(ensure_http_connect_success("  HTTP/1.0 +200").is_ok());
}

#[test]
fn written_requests_are_read_back() {
    for (host, shown) in [
        (" example.org ", "example.org"),
        ("10.50.2.206", "10.50.2.206"),
        ("2001:DB8:0::1", "2001:db8::1"),
    ] {
        match read_socks_request(&write_socks5_connect_request(host, 8080).unwrap()) {
            RequestStep::Done(got) => {
                assert_eq!(got.command, SocksCommand::Connect);
                assert_eq!(got.target.host(), shown);
                assert_eq!(got.target.port(), 8080);
            }
            _ => panic!("not a whole request"),
        }
    }
}

#[test]
fn the_own_greeting_is_accepted() {
    assert!(matches!(negotiate_method(&greeting()), NegotiateStep::Accept { .. }));
}

#[test]
fn written_replies_are_read_back() {
    assert!(matches!(read_socks5_connect_reply(&write_reply(0)), ReplyStep::Done));
    let bound = SocketAddrV4::new(Ipv4Addr::new(127, 0, 0, 1), 9);
    assert!(matches!(read_socks5_connect_reply(&write_bound_reply(0, bound)), ReplyStep::Done));
    assert!(matches!(read_socks5_connect_reply(&write_reply(7)), ReplyStep::Failed(_)));
}

#[test]
fn the_shown_address_names_the_proxy() {
    for raw in [" 127.0.0.1:1081 ", "socks5://h:1", "http://h:2", "socks5h://h:3"] {
        let p = parse_fallback_proxy(Some(raw)).unwrap().unwrap();
        let again = parse_fallback_proxy(Some(&p.url)).unwrap().unwrap();
        assert_eq!((again.url, again.addr, again.kind), (p.url, p.addr, p.kind));
    }
}

#[test]
fn schemes_say_what_a_proxy_speaks() {
    let parse = |raw: &str| parse_fallback_proxy(Some(raw)).unwrap().unwrap();
    for (raw, url, kind) in [
        ("h:1", "socks5h://h:1", FallbackProxyKind::Socks5),
        ("socks5h://h:1", "socks5h://h:1", FallbackProxyKind::Socks5),
        ("socks5://h:1", "socks5://h:1", FallbackProxyKind::Socks5),
        ("http://h:1", "http://h:1", FallbackProxyKind::Http),
    ] {
        let p = parse(raw);
        assert_eq!(parse_fallback_proxy_value(raw).unwrap().url, url);
        assert_eq!((p.url.as_str(), p.addr.as_str(), p.kind), (url, "h:1", kind));
    }
    for raw in ["https://h:1", "SOCKS5://h:1", "://h:1", "a:b://h:1"] {
        assert_eq!(
            parse_fallback_proxy(Some(raw)).unwrap_err().to_string(),
            "invalid config: fallback is invalid: only socks5://, socks5h:// and http:// are supported"
        );
    }
    for raw in ["socks5://", " http://  "] {
        assert_eq!(
            parse_fallback_proxy(Some(raw)).unwrap_err().to_string(),
            "invalid config: fallback is invalid: empty proxy address"
        );
    }
}
