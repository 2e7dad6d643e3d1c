use ec_core::addr::{Ipv4Addr, SocketAddr, SocketAddrV4};
use ec_core::routing::{RoutePlan, RouteSource};
use ec_core::socks::{
    bind_failed, decide_route, decide_udp_route, finish_udp_route, forward_udp_from_tunnel,
    handle_client, handle_udp_associate, is_ip_host, log_resolved_route_source, log_socks_startup,
    normalize_bind_addr, relay_read, remember_udp_client, resolve_dial_v4_from_str,
    route_runtime_error, run_udp_relay, serve, target_addr, tunnel_terminated, udp_relay_bind_addr,
    udp_send_failed, udp_unsupported, AssociateStep, ClientStep, PumpStep, RelayStep,
    RouteTransport, UdpRouteStep, UdpRouteTransport,
};
use ec_core::socks_proxy::{parse_fallback_proxy, FallbackProxyKind};
use ec_core::socks_wire::{encode_socks_udp_packet, parse_socks_udp_packet, ConnectTarget, SocksCommand};
use ec_core::stream::ReadOutcome;
use ec_core::EcError;

fn target(host: &str, port: u16) -> ConnectTarget {
    ConnectTarget { host: host.to_string(), port }
}

fn v4(d: u8, port: u16) -> SocketAddr {
    SocketAddr::V4 { ip: Ipv4Addr::new(10, 0, 0, d), port }
}

fn v6(port: u16) -> SocketAddr {
    SocketAddr::V6 { ip6: ec_core::addr::Ipv6Addr::new([0, 0, 0, 0, 0, 0, 0, 1]), port, flow: 0, scope: 0 }
}

fn remote(dial: &str, name: &str, source: RouteSource) -> Result<RoutePlan, EcError> {
    Ok(RoutePlan::Remote {
        dial: dial.to_string(),
        rc_id: 7,
        rc_name: name.to_string(),
        source,
    })
}

fn fallback(to: &str) -> Result<RoutePlan, EcError> {
    Ok(RoutePlan::Fallback {
        target: to.to_string(),
        reason: "why".to_string(),
        reserved_proto1: false,
    })
}

#[test]
fn normalize_bind_addr_expands_port_only() {
    assert_eq!(normalize_bind_addr(":1080"), "0.0.0.0:1080");
}

#[test]
fn normalize_bind_addr_keeps_explicit_host() {
    assert_eq!(normalize_bind_addr("127.0.0.1:1080"), "127.0.0.1:1080");
}

#[test]
fn connect_target_formats_socket_target() {
    let target = ConnectTarget { host: "10.0.0.1".to_string(), port: 80 };
    assert_eq!(target.to_socket_target(), "10.0.0.1:80");
    assert_eq!(target.to_string(), "10.0.0.1:80");
}

#[test]
fn connect_target_formats_ipv6_socket_target() {
    let target = ConnectTarget { host: "2001:db8::1".to_string(), port: 443 };
    assert_eq!(target.to_socket_target(), "[2001:db8::1]:443");
    assert_eq!(target.to_string(), "2001:db8::1:443");
}

#[test]
fn socks_socks_command_maps_known_values() {
    assert_eq!(SocksCommand::from_byte(0x01), SocksCommand::Connect);
    assert_eq!(SocksCommand::from_byte(0x03), SocksCommand::UdpAssociate);
    assert_eq!(SocksCommand::from_byte(0x02), SocksCommand::Other(0x02));
}

#[test]
fn socks_parse_socks_udp_packet_reads_ipv4_target() {
    let raw = [0, 0, 0, 1, 10, 50, 2, 206, 0, 53, b'q', b'1'];
    let packet = parse_socks_udp_packet(&raw).unwrap();
    assert_eq!(packet.target.host(), "10.50.2.206");
    assert_eq!(packet.target.port(), 53);
    assert_eq!(packet.payload, b"q1");
}

#[test]
fn socks_parse_socks_udp_packet_reads_domain_target() {
    let raw = [0, 0, 0, 3, 7, b'e', b'x', b'a', b'm', b'p', b'l', b'e', 0, 53, b'q'];
    let packet = parse_socks_udp_packet(&raw).unwrap();
    assert_eq!(packet.target.host(), "example");
    assert_eq!(packet.target.port(), 53);
    assert_eq!(packet.payload, b"q");
}

#[test]
fn socks_parse_socks_udp_packet_rejects_fragments() {
    let raw = [0, 0, 1, 1, 10, 50, 2, 206, 0, 53];
    assert!(parse_socks_udp_packet(&raw).is_err());
}

#[test]
fn socks_encode_socks_udp_packet_writes_ipv4_source() {
    let source = SocketAddrV4::new(Ipv4Addr::new(10, 50, 2, 206), 53);
    let packet = encode_socks_udp_packet(source, b"ans");
    assert_eq!(packet, vec![0, 0, 0, 1, 10, 50, 2, 206, 0, 53, b'a', b'n', b's']);
}

#[test]
fn serving_needs_a_proxy_that_can_be_spoken_to() {
    let plan = serve(":1080", Some(" http://p:1 ")).unwrap();
    assert_eq!(plan.bind, "0.0.0.0:1080");
    assert_eq!(plan.proxy.as_ref().unwrap().kind, FallbackProxyKind::Http);
    assert_eq!(
        log_socks_startup(&plan.bind, &plan.proxy),
        (
            "fallback: proxy to http://p:1".to_string(),
            "socks listening on 0.0.0.0:1080".to_string()
        )
    );
    assert_eq!(log_socks_startup("b", &None).0, "fallback: direct");
    assert!(serve(":1080", None).unwrap().proxy.is_none());
    assert!(serve(":1080", Some("ftp://p:1")).is_err());
    assert_eq!(
        bind_failed("b", "c").to_string(),
        "runtime failure: socks bind failed on b: c"
    );
    assert_eq!(
        tunnel_terminated("runtime failure: x".to_string()).to_string(),
        "runtime failure: tunnel terminated: x"
    );
}

#[test]
fn commands_lead_to_their_handlers() {
    assert!(matches!(handle_client(SocksCommand::Connect), ClientStep::Connect));
    assert!(matches!(handle_client(SocksCommand::UdpAssociate), ClientStep::UdpAssociate));
    match handle_client(SocksCommand::Other(2)) {
        ClientStep::Refuse { reply, error } => {
            assert_eq!(reply, 7);
            assert_eq!(error.to_string(), "runtime failure: unsupported socks command: 0x02");
        }
        _ => panic!("expected a refusal"),
    }
}

#[test]
fn remote_plans_are_tunnelled() {
    let proxy = parse_fallback_proxy(Some("p:1")).unwrap();
    let d = decide_route(
        &target("a.example", 443),
        remote("10.0.0.1:443", " ", RouteSource::DnsServerCache),
        proxy.as_ref(),
    );
    assert_eq!(d.line, "a.example:443 -> remote -> unknown(10.0.0.1:443)");
    assert_eq!(d.path, "remote -> unknown(10.0.0.1:443); source=dns-cache");
    assert_eq!(d.note.unwrap(), "dns cache hit a.example -> 10.0.0.1 for rc_id=7");
    assert!(matches!(d.transport, RouteTransport::Tunnel(dial) if dial == "10.0.0.1:443"));
    let ip = decide_route(&target("10.0.0.1", 1), remote("10.0.0.1:1", "n", RouteSource::RuleIp), None);
    assert_eq!(ip.line, "10.0.0.1:1 -> remote -> n");
    assert!(ip.note.is_none());
}

#[test]
fn fallback_plans_go_to_the_proxy_or_directly() {
    let proxy = parse_fallback_proxy(Some("p:1")).unwrap();
    let d = decide_route(&target("a.example", 443), fallback("a.example:443"), proxy.as_ref());
    assert_eq!(d.line, "a.example:443 -> fallback -> socks5h://p:1");
    assert_eq!(d.path, "fallback -> socks5h://p:1; reason: why");
    match d.transport {
        RouteTransport::Proxy(p, t) => {
            assert_eq!(p.addr, "p:1");
            assert_eq!(t.to_string(), "a.example:443");
        }
        _ => panic!("expected the proxy"),
    }
    let direct = decide_route(&target("::1", 443), fallback("::1:443"), None);
    assert_eq!(direct.line, "::1:443 -> fallback -> direct");
    assert_eq!(direct.path, "fallback -> direct dial=[::1]:443; reason: why");
    assert!(matches!(direct.transport, RouteTransport::Direct(dial) if dial == "[::1]:443"));
}

#[test]
fn unplanned_targets_are_tunnelled_as_they_are() {
    let d = decide_route(&target("a", 1), Err(EcError::Runtime("x".to_string())), None);
    assert_eq!(d.line, "a:1 -> remote -> legacy(a:1)");
    assert_eq!(d.path, "remote -> legacy(a:1) planner-unavailable=runtime failure: x");
    assert!(matches!(d.transport, RouteTransport::Tunnel(dial) if dial == "a:1"));
    assert_eq!(
        route_runtime_error("a:1", &d.path, "runtime failure: y".to_string()).to_string(),
        "runtime failure: a:1 -> remote -> legacy(a:1) planner-unavailable=runtime failure: x; failed: y"
    );
}

#[test]
fn resolutions_are_noted() {
    let note = |source| log_resolved_route_source("h", "1.1.1.1", -7, source);
    assert_eq!(
        note(RouteSource::DnsServerQuery(v4(1, 53))).unwrap(),
        "dnsserver resolved h -> 1.1.1.1 via 10.0.0.1:53 for rc_id=-7"
    );
    assert_eq!(
        note(RouteSource::DnsDataIpRule).unwrap(),
        "dns.data resolved h -> 1.1.1.1 for rc_id=-7"
    );
    assert_eq!(
        note(RouteSource::DnsServerIpRuleCache).unwrap(),
        "dns cache hit h -> 1.1.1.1 for rc_id=-7"
    );
    assert!(note(RouteSource::ExtraIp).is_none());
    assert!(is_ip_host(" ::1 "));
    assert!(is_ip_host("10.0.0.1"));
    assert!(!is_ip_host("10.0.0"));
    assert_eq!(target_addr("no colon"), "no colon");
}

#[test]
fn only_the_tunnel_carries_datagrams() {
    let step = decide_udp_route(
        &target("10.0.0.1", 53),
        remote("10.0.0.1:53", "n", RouteSource::RuleIp),
        None,
    );
    match step {
        UdpRouteStep::Resolve { note, line, path, dial } => {
            assert_eq!(dial, "10.0.0.1:53");
            let to = SocketAddrV4::new(Ipv4Addr::new(10, 0, 0, 1), 53);
            let d = finish_udp_route(note, line, path, Ok(to));
            assert_eq!(d.line, "10.0.0.1:53 -> remote -> n");
            assert!(matches!(d.transport, UdpRouteTransport::Tunnel(a) if a == to));
        }
        UdpRouteStep::Done(_) => panic!("expected an address to resolve"),
    }
    match decide_udp_route(&target("a", 53), fallback("a:53"), None) {
        UdpRouteStep::Done(d) => assert!(matches!(
            d.transport,
            UdpRouteTransport::Unsupported(m) if m == "udp fallback transport is not supported yet"
        )),
        UdpRouteStep::Resolve { .. } => panic!("expected a decision"),
    }
    match decide_udp_route(&target("a", 53), Err(EcError::Runtime("x".to_string())), None) {
        UdpRouteStep::Done(d) => {
            assert_eq!(d.line, "a:53 -> remote -> legacy");
            assert_eq!(d.path, "remote -> legacy planner-unavailable=runtime failure: x");
        }
        UdpRouteStep::Resolve { .. } => panic!("expected a decision"),
    }
    let failed = finish_udp_route(None, "l".to_string(), "p".to_string(), Err(EcError::Runtime("x".to_string())));
    assert!(matches!(
        failed.transport,
        UdpRouteTransport::Unsupported(m) if m == "udp remote target is not ipv4: x"
    ));
}

#[test]
fn the_first_ipv4_address_is_dialled() {
    let a = resolve_dial_v4_from_str("t", Ok(vec![v6(1), v4(2, 3), v4(4, 5)])).unwrap();
    assert_eq!(a.to_string(), "10.0.0.2:3");
    assert_eq!(
        resolve_dial_v4_from_str("t", Ok(vec![v6(1)])).unwrap_err().to_string(),
        "runtime failure: no ipv4 address resolved for udp target t"
    );
    assert_eq!(
        resolve_dial_v4_from_str("t", Err("x".to_string())).unwrap_err().to_string(),
        "runtime failure: resolve udp target failed: t: x"
    );
}

#[test]
fn relays_listen_on_ipv4() {
    assert_eq!(udp_relay_bind_addr(v4(1, 1080)).unwrap().to_string(), "10.0.0.1:0");
    assert!(udp_relay_bind_addr(v6(1080)).is_err());
    match handle_udp_associate(v4(1, 9)) {
        AssociateStep::Relay { bound, line } => {
            assert_eq!(bound.port, 9);
            assert_eq!(line, "UDP ASSOCIATE -> 10.0.0.1:9");
        }
        AssociateStep::Refuse { .. } => panic!("expected a relay"),
    }
    assert!(matches!(handle_udp_associate(v6(9)), AssociateStep::Refuse { reply: 1, .. }));
}

#[test]
fn relays_serve_one_client() {
    let raw = [0, 0, 0, 1, 10, 50, 2, 206, 0, 53, b'q'];
    let mut client = None;
    assert!(matches!(run_udp_relay(true, &raw, v4(1, 1), &mut client), RelayStep::Stop));
    assert!(matches!(run_udp_relay(false, &[], v4(1, 1), &mut client), RelayStep::Ignore));
    assert!(client.is_none());
    assert!(matches!(run_udp_relay(false, &raw, v4(1, 1), &mut client), RelayStep::Route(_)));
    assert_eq!(client, Some(v4(1, 1)));
    assert!(matches!(
        run_udp_relay(false, &raw, v4(1, 2), &mut client),
        RelayStep::Drop(m) if m == "drop udp packet from unexpected peer 10.0.0.1:2"
    ));
    assert!(matches!(
        run_udp_relay(false, &raw[..3], v4(1, 1), &mut client),
        RelayStep::Drop(m) if m == "drop invalid udp packet: udp packet header is too short"
    ));
    assert!(remember_udp_client(&mut client, v4(1, 1)));
    assert!(!remember_udp_client(&mut client, v6(1)));
    let source = SocketAddrV4::new(Ipv4Addr::new(1, 2, 3, 4), 5);
    let (to, packet) = forward_udp_from_tunnel(client, source, b"x").unwrap();
    assert_eq!(to, v4(1, 1));
    assert_eq!(packet, encode_socks_udp_packet(source, b"x"));
    assert!(forward_udp_from_tunnel(None, source, b"x").is_none());
    assert_eq!(udp_send_failed("p", "runtime failure: x".to_string()), "p; failed: x");
    assert_eq!(udp_unsupported("p", "x"), "p; failed: x");
}

#[test]
fn connections_are_relayed_until_they_end() {
    assert!(matches!(relay_read(ReadOutcome::Data(vec![1])), PumpStep::Send(b) if b == [1]));
    assert!(matches!(relay_read(ReadOutcome::Eof), PumpStep::Close));
    assert!(matches!(relay_read(ReadOutcome::TimedOut), PumpStep::Close));
    assert!(matches!(relay_read(ReadOutcome::Failed("x".to_string())), PumpStep::Close));
}
