use ec_core::addr::{IpAddr, Ipv4Addr, Ipv6Addr, SocketAddr};
use ec_core::dns_resolver::{
    build_a_query, check_response, decode_dns_response, extract_first_ipv4, finish_query, finish_tcp_query,
    next_query_id, parse_dns_server, query_server, query_tcp, query_udp, resolve_first_ipv4, tcp_response_length,
    udp_silence, DnsCache, DnsMessage, LookupStep, QueryFailure, ResolveSource, ServerStep, UdpQueryResult,
    DNS_CACHE_TTL,
};
use ec_core::EcError;

fn v4(a: u8, b: u8, c: u8, d: u8, port: u16) -> SocketAddr {
    SocketAddr::new(IpAddr::V4(Ipv4Addr::new(a, b, c, d)), port)
}

#[test]
fn parse_dns_server_accepts_plain_ipv4() {
    let addr = parse_dns_server("210.35.88.5").unwrap();
    assert_eq!(addr, SocketAddr::new(IpAddr::V4(Ipv4Addr::new(210, 35, 88, 5)), 53));
}

#[test]
fn parse_dns_server_accepts_socket_addr() {
    let addr = parse_dns_server("114.114.114.114:5353").unwrap();
    assert_eq!(addr, SocketAddr::new(IpAddr::V4(Ipv4Addr::new(114, 114, 114, 114)), 5353));
}

#[test]
fn parse_dns_server_accepts_plain_ipv6() {
    let addr = parse_dns_server("::1").unwrap();
    let localhost = Ipv6Addr::new([0, 0, 0, 0, 0, 0, 0, 1]);
    assert_eq!(addr, SocketAddr::new(IpAddr::V6(localhost), 53));
}

#[test]
fn parse_dns_server_accepts_bracketed_ipv6() {
    let addr = parse_dns_server(" [fe80::1%7]:5353 ").unwrap();
    assert_eq!(addr.to_string(), "[fe80::1%7]:5353");
}

#[test]
fn parse_dns_server_rejects_invalid_value() {
    assert!(parse_dns_server("not-a-server").is_none());
    assert!(parse_dns_server("").is_none());
}

#[test]
fn queries_are_encoded() {
    let want = [
        0x12, 0x34, 1, 0, 0, 1, 0, 0, 0, 0, 0, 0, 7, b'e', b'x', b'a', b'm', b'p', b'l', b'e', 3,
        b'c', b'o', b'm', 0, 0, 1, 0, 1,
    ];
    assert_eq!(build_a_query(0x1234, "example.com").unwrap(), want);
    assert_eq!(build_a_query(0x1234, "example.com.").unwrap(), want);
    let err = build_a_query(1, &"a".repeat(64)).unwrap_err().to_string();
    assert!(err.starts_with("runtime failure: dns query name build failed: "));
}

#[test]
fn query_failures_are_reported() {
    assert_eq!(finish_query(Ok(vec![1])).unwrap(), vec![1]);
    assert_eq!(
        finish_query(Err(QueryFailure::Name("n".to_string()))).unwrap_err().to_string(),
        "runtime failure: dns query name build failed: n"
    );
    assert_eq!(
        finish_query(Err(QueryFailure::Encode("e".to_string()))).unwrap_err().to_string(),
        "runtime failure: dns query encode failed: e"
    );
}

#[test]
fn query_ids_wrap() {
    let mut counter = 0xffff;
    assert_eq!(next_query_id(&mut counter), 0xffff);
    assert_eq!(next_query_id(&mut counter), 0);
    assert_eq!(counter, 1);
}

/// A response to the query for `a.`: an alias, then two addresses.
fn response(flags: [u8; 2]) -> Vec<u8> {
    let mut out = vec![0x12, 0x34, flags[0], flags[1], 0, 1, 0, 3, 0, 0, 0, 0];
    out.extend_from_slice(&[1, b'a', 0, 0, 1, 0, 1]);
    out.extend_from_slice(&[0xc0, 12, 0, 5, 0, 1, 0, 0, 0, 9, 0, 3, 1, b'b', 0]);
    out.extend_from_slice(&[1, b'b', 0, 0, 1, 0, 1, 0, 0, 0, 9, 0, 4, 10, 166, 35, 11]);
    out.extend_from_slice(&[1, b'b', 0, 0, 1, 0, 1, 0, 0, 0, 9, 0, 4, 10, 166, 35, 12]);
    out
}

#[test]
fn responses_are_decoded() {
    let server = v4(1, 1, 1, 1, 53);
    let m = decode_dns_response(&response([0x81, 0x80]), 0x1234, server).unwrap();
    assert_eq!(m.id, 0x1234);
    assert!(m.is_response);
    assert!(!m.truncated);
    assert_eq!(m.response_code, 0);
    assert_eq!(m.answers.len(), 3);
    assert!(m.answers[0].is_none());
    assert_eq!(extract_first_ipv4(&m, server).unwrap(), Ipv4Addr::new(10, 166, 35, 11));
}

#[test]
fn responses_that_do_not_fit_are_refused() {
    let server = v4(1, 1, 1, 1, 53);
    let refusal = |payload: &[u8], id: u16| {
        decode_dns_response(payload, id, server).unwrap_err().to_string()
    };
    assert_eq!(
        refusal(&response([0x81, 0x80]), 5),
        "runtime failure: dns response id mismatch from 1.1.1.1:53: expected 5, got 4660"
    );
    assert_eq!(
        refusal(&response([0x01, 0x00]), 0x1234),
        "runtime failure: dns response message type is not response from 1.1.1.1:53"
    );
    assert_eq!(
        refusal(&response([0x81, 0x83]), 0x1234),
        "runtime failure: dns response code from 1.1.1.1:53: Non-Existent Domain"
    );
    assert!(refusal(&[1, 2, 3], 1).starts_with("runtime failure: dns response decode failed: "));
}

fn message(answers: Vec<Option<Ipv4Addr>>) -> DnsMessage {
    DnsMessage {
        id: 7,
        is_response: true,
        response_code: 0,
        response_text: "No Error".to_string(),
        truncated: false,
        answers,
    }
}

#[test]
fn decoded_responses_are_checked() {
    let server = v4(1, 1, 1, 1, 53);
    assert!(check_response(Ok(message(vec![])), 7, server).is_ok());
    assert!(check_response(Ok(message(vec![])), 8, server).is_err());
    assert_eq!(
        check_response(Err("x".to_string()), 7, server).unwrap_err().to_string(),
        "runtime failure: dns response decode failed: x"
    );
}

#[test]
fn responses_without_addresses_are_errors() {
    let server = v4(1, 1, 1, 1, 53);
    assert_eq!(
        extract_first_ipv4(&message(vec![None, None]), server).unwrap_err().to_string(),
        "runtime failure: dns no A answer from 1.1.1.1:53"
    );
    let ip = Ipv4Addr::new(9, 9, 9, 9);
    assert_eq!(extract_first_ipv4(&message(vec![None, Some(ip)]), server).unwrap(), ip);
}

#[test]
fn datagrams_of_others_are_ignored() {
    let server = v4(1, 1, 1, 1, 53);
    let whole = response([0x81, 0x80]);
    assert!(matches!(
        query_udp(&whole, false, 0x1234, server).unwrap(),
        UdpQueryResult::Foreign
    ));
    assert!(matches!(
        query_udp(&whole, true, 0x1234, server).unwrap(),
        UdpQueryResult::Complete(_)
    ));
    assert!(matches!(
        query_udp(&response([0x83, 0x80]), true, 0x1234, server).unwrap(),
        UdpQueryResult::Truncated
    ));
    assert!(query_udp(&whole, true, 1, server).is_err());
    assert_eq!(
        udp_silence(server).to_string(),
        "runtime failure: dns udp recv failed: no valid response from 1.1.1.1:53"
    );
}

#[test]
fn truncated_answers_are_asked_for_again() {
    let server = v4(1, 1, 1, 1, 53);
    let step = |payload: &[u8], from_server: bool| {
        query_server(query_udp(payload, from_server, 0x1234, server), server)
    };
    let ip = Ipv4Addr::new(10, 166, 35, 11);
    assert!(matches!(step(&response([0x81, 0x80]), false), ServerStep::Listen));
    assert!(matches!(step(&response([0x83, 0x80]), true), ServerStep::Tcp));
    assert!(matches!(step(&response([0x81, 0x80]), true), ServerStep::Done(Ok(a)) if a == ip));
    assert!(matches!(step(&response([0x81, 0x82]), true), ServerStep::Done(Err(_))));
    assert!(matches!(
        query_server(Err(udp_silence(server)), server),
        ServerStep::Done(Err(_))
    ));
    assert_eq!(finish_tcp_query(&response([0x83, 0x80]), 0x1234, server).unwrap(), ip);
    assert!(finish_tcp_query(&response([0x83, 0x80]), 1, server).is_err());
}

#[test]
fn tcp_queries_carry_their_length() {
    assert_eq!(query_tcp(&[7; 258]).unwrap()[..3], [1, 2, 7]);
    assert_eq!(query_tcp(&[7; 258]).unwrap().len(), 260);
    assert_eq!(
        query_tcp(&vec![0; 65536]).unwrap_err().to_string(),
        "runtime failure: dns tcp request is too large"
    );
    assert_eq!(tcp_response_length([1, 2]).unwrap(), 258);
    assert_eq!(
        tcp_response_length([0, 0]).unwrap_err().to_string(),
        "runtime failure: dns tcp response length is invalid: 0"
    );
}

#[test]
fn the_cache_forgets_in_time() {
    let mut cache = DnsCache::new();
    let a = Ipv4Addr::new(10, 0, 0, 1);
    let b = Ipv4Addr::new(10, 0, 0, 2);
    assert!(cache.cache_get(1, "h", 0).is_none());
    cache.cache_put(1, "h", a, 100);
    cache.cache_put(2, "h", b, 100);
    assert_eq!(cache.cache_get(1, "h", 100 + DNS_CACHE_TTL - 1), Some(a));
    assert!(cache.cache_get(1, "h", 100 + DNS_CACHE_TTL).is_none());
    assert!(cache.cache_get(1, "h", 0).is_none());
    assert_eq!(cache.cache_get(2, "h", 101), Some(b));
    cache.cache_put(2, "h", a, 200);
    assert_eq!(cache.cache_get(2, "h", 200), Some(a));
    cache.clear_cache();
    assert!(cache.cache_get(2, "h", 200).is_none());
}

#[test]
fn lookups_ask_servers_in_their_order() {
    let mut cache = DnsCache::new();
    let servers = vec!["1.1.1.1".to_string(), "junk".to_string(), "8.8.8.8:54".to_string()];
    let (mut lookup, step) = resolve_first_ipv4(&mut cache, 0, 5, "h", &servers);
    assert!(matches!(step, LookupStep::Ask(a) if a == v4(1, 1, 1, 1, 53)));
    let step = lookup.answer(&mut cache, 0, Err(EcError::Runtime("x".to_string())));
    assert!(matches!(step, LookupStep::Ask(a) if a == v4(8, 8, 8, 8, 54)));
    let ip = Ipv4Addr::new(10, 0, 0, 1);
    match lookup.answer(&mut cache, 0, Ok(ip)) {
        LookupStep::Done(Ok(found)) => {
            assert_eq!(found.ip, ip);
            assert_eq!(found.source, ResolveSource::Server(v4(8, 8, 8, 8, 54)));
        }
        _ => panic!("expected an address"),
    }
    let (_, again) = resolve_first_ipv4(&mut cache, 1, 5, "h", &servers);
    match again {
        LookupStep::Done(Ok(found)) => assert_eq!(found.source, ResolveSource::Cache),
        _ => panic!("expected a cached address"),
    }
}

#[test]
fn lookups_fail_with_the_last_error() {
    let mut cache = DnsCache::new();
    let servers = vec!["1.1.1.1".to_string(), "8.8.8.8".to_string()];
    let (mut lookup, _) = resolve_first_ipv4(&mut cache, 0, 5, "h", &servers);
    lookup.answer(&mut cache, 0, Err(EcError::Runtime("first".to_string())));
    match lookup.answer(&mut cache, 0, Err(EcError::Runtime("second".to_string()))) {
        LookupStep::Done(Err(e)) => assert_eq!(
            e.to_string(),
            "runtime failure: dnsserver lookup failed for h; 8.8.8.8:53: second"
        ),
        _ => panic!("expected a failure"),
    }
    let (_, none) = resolve_first_ipv4(&mut cache, 0, 5, "h", &vec!["junk".to_string()]);
    match none {
        LookupStep::Done(Err(e)) => assert_eq!(
            e.to_string(),
            "runtime failure: dnsserver lookup has no valid server address"
        ),
        _ => panic!("expected a failure"),
    }
}

#[test]
fn echoed_queries_are_no_answers() {
    let query = build_a_query(7, "example.com").unwrap();
    assert_eq!(
        decode_dns_response(&query, 7, v4(1, 2, 3, 4, 53)).unwrap_err().to_string(),
        "runtime failure: dns response message type is not response from 1.2.3.4:53"
    );
}
