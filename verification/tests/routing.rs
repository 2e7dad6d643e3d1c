use ec_core::addr::{Ipv4Addr, SocketAddr};
use ec_core::dns_resolver::{resolve_first_ipv4, DnsCache, LookupStep, ResolveResult, ResolveSource};
use ec_core::route_table::{DnsRecord, PortRange, RouteRule, RouteTable};
use ec_core::routing::{
    compile_rule, install_route_table, install_tunnel_fallback, log_table_details,
    normalize_dns_servers, parse_extra_ip, plan_target, PlanStep, RouteMatcher, RoutePlan,
    RouteSource, Router,
};
use ec_core::EcError;

fn ready(step: PlanStep) -> RoutePlan {
    match step {
        PlanStep::Ready(plan) => plan,
        PlanStep::Lookup(_) => panic!("expected a plan"),
    }
}

fn rule(rc_id: i32, proto: i32, name: &str, host: &str, start: u16, end: u16) -> RouteRule {
    RouteRule {
        rc_id,
        proto,
        name: name.to_string(),
        host: host.to_string(),
        port: PortRange { start, end },
    }
}

fn record(rc_id: i32, host: &str, ip: &str) -> DnsRecord {
    DnsRecord { rc_id, host: host.to_string(), ip: ip.to_string() }
}

fn table(rules: Vec<RouteRule>, servers: Vec<&str>, records: Vec<DnsRecord>) -> RouteTable {
    RouteTable {
        rules,
        dns_servers: servers.into_iter().map(|s| s.to_string()).collect(),
        dns_records: records,
    }
}

#[test]
fn domain_hit_uses_dns_map_ip() {
    let table = RouteTable {
        rules: vec![RouteRule {
            rc_id: 205,
            proto: 0,
            name: "ids".to_string(),
            host: "ids.shiep.edu.cn".to_string(),
            port: PortRange { start: 1, end: 65535 },
        }],
        dns_servers: vec![],
        dns_records: vec![DnsRecord {
            rc_id: 205,
            host: "ids.shiep.edu.cn".to_string(),
            ip: "10.166.35.11".to_string(),
        }],
    };
    let matcher = RouteMatcher::from_table(table).unwrap();
    let plan = ready(matcher.plan("ids.shiep.edu.cn", 443));
    match plan {
        RoutePlan::Remote { dial, rc_id, source, .. } => {
            assert_eq!(dial, "10.166.35.11:443");
            assert_eq!(rc_id, 205);
            assert_eq!(source, RouteSource::DnsMap);
        }
        _ => panic!("expected remote plan"),
    }
}

#[test]
fn ip_range_hit_goes_remote() {
    let table = table(vec![rule(334, 0, "fee", "10.50.2.1~10.50.2.254", 80, 80)], vec![], vec![]);
    let matcher = RouteMatcher::from_table(table).unwrap();
    let plan = ready(matcher.plan("10.50.2.206", 80));
    match plan {
        RoutePlan::Remote { dial, source, .. } => {
            assert_eq!(dial, "10.50.2.206:80");
            assert_eq!(source, RouteSource::RuleIp);
        }
        _ => panic!("expected remote plan"),
    }
}

#[test]
fn miss_falls_back() {
    let table = table(vec![], vec![], vec![]);
    let matcher = RouteMatcher::from_table(table).unwrap();
    let plan = ready(matcher.plan("example.com", 443));
    match plan {
        RoutePlan::Fallback { .. } => {}
        _ => panic!("expected fallback plan"),
    }
}

#[test]
fn dns_duplicates_are_deduped_and_keep_order() {
    let table = table(
        vec![rule(205, 0, "ids", "ids.shiep.edu.cn", 1, 65535)],
        vec![],
        vec![
            record(205, "ids.shiep.edu.cn", "10.166.35.11"),
            record(205, "ids.shiep.edu.cn", "10.166.35.11"),
            record(205, "ids.shiep.edu.cn", "10.166.35.12"),
        ],
    );
    let matcher = RouteMatcher::from_table(table).unwrap();
    assert_eq!(matcher.dns_records, 2);
    let ips = matcher.dns_ips(205, "ids.shiep.edu.cn");
    assert_eq!(ips.len(), 2);
    assert_eq!(ips[0].to_string(), "10.166.35.11");
    assert_eq!(ips[1].to_string(), "10.166.35.12");
}

#[test]
fn duplicate_rules_are_deduped() {
    let table = table(
        vec![
            rule(115, 0, "qikan", "qikan.chaoxing.com", 80, 80),
            rule(115, 0, "qikan", "qikan.chaoxing.com", 80, 80),
            rule(115, 0, "qikan", "qikan.chaoxing.com", 443, 443),
        ],
        vec![],
        vec![],
    );
    let matcher = RouteMatcher::from_table(table).unwrap();
    assert_eq!(matcher.rules.len(), 2);
}

#[test]
fn dns_servers_are_deduped_and_trimmed() {
    let table = table(vec![], vec![" 210.35.88.5 ", "114.114.114.114", "210.35.88.5"], vec![]);
    let matcher = RouteMatcher::from_table(table).unwrap();
    assert_eq!(
        matcher.dns_servers,
        vec!["210.35.88.5".to_string(), "114.114.114.114".to_string()]
    );
}

#[test]
fn dns_servers_that_differ_in_case_are_the_same() {
    let table = table(vec![], vec!["FE80::1", "fe80::1", " "], vec![]);
    let matcher = RouteMatcher::from_table(table).unwrap();
    assert_eq!(matcher.dns_servers, vec!["FE80::1".to_string()]);
}

#[test]
fn domain_hit_without_dns_map_uses_dnsserver_fallback_reason() {
    let table = table(
        vec![rule(205, 0, "ids", "ids.shiep.edu.cn", 1, 65535)],
        vec!["bad-server"],
        vec![],
    );
    let matcher = RouteMatcher::from_table(table).unwrap();
    let pending = match matcher.plan("ids.shiep.edu.cn", 443) {
        PlanStep::Lookup(pending) => pending,
        PlanStep::Ready(_) => panic!("expected a lookup"),
    };
    let mut cache = DnsCache::new();
    let (_, step) =
        resolve_first_ipv4(&mut cache, 0, pending.rc_id, &pending.domain, &matcher.dns_servers);
    let resolved = match step {
        LookupStep::Done(result) => result,
        LookupStep::Ask(_) => panic!("expected no server to ask"),
    };
    let plan = pending.finish(resolved);
    match plan {
        RoutePlan::Fallback { reason, .. } => {
            assert!(reason.contains("dnsserver lookup failed"));
            assert_eq!(
                reason,
                "hostname matched rc_id=205 but dns map is missing and dnsserver lookup failed: dnsserver lookup has no valid server address"
            );
        }
        _ => panic!("expected fallback plan"),
    }
}

#[test]
fn lookups_end_in_remote_plans() {
    let table = table(vec![rule(-3, 0, "x", "a.example", 1, 9)], vec!["1.1.1.1"], vec![]);
    let matcher = RouteMatcher::from_table(table).unwrap();
    let server = SocketAddr::V4 { ip: Ipv4Addr::new(1, 1, 1, 1), port: 53 };
    for (source, expected, label) in [
        (ResolveSource::Cache, RouteSource::DnsServerCache, "dns-cache"),
        (
            ResolveSource::Server(server),
            RouteSource::DnsServerQuery(server),
            "dns-server(1.1.1.1:53)",
        ),
    ] {
        let pending = match matcher.plan("A.Example.", 9) {
            PlanStep::Lookup(pending) => pending,
            PlanStep::Ready(_) => panic!("expected a lookup"),
        };
        assert_eq!(pending.domain, "a.example");
        assert_eq!(pending.host, "A.Example.");
        match pending.finish(Ok(ResolveResult { ip: Ipv4Addr::new(10, 0, 0, 9), source })) {
            RoutePlan::Remote { dial, rc_id, rc_name, source } => {
                assert_eq!(dial, "10.0.0.9:9");
                assert_eq!(rc_id, -3);
                assert_eq!(rc_name, "x");
                assert_eq!(source, expected);
                assert_eq!(source.describe(), label);
            }
            _ => panic!("expected remote plan"),
        }
    }
}

#[test]
fn domain_hit_without_any_server_falls_back() {
    let table = table(vec![rule(-3, 0, "x", "a.example", 1, 9)], vec![], vec![]);
    let matcher = RouteMatcher::from_table(table).unwrap();
    match ready(matcher.plan("a.example", 1)) {
        RoutePlan::Fallback { target, reason, reserved_proto1 } => {
            assert_eq!(target, "a.example:1");
            assert_eq!(
                reason,
                "hostname matched rc_id=-3 but dns map is missing and dnsserver is unavailable"
            );
            assert!(!reserved_proto1);
        }
        _ => panic!("expected fallback plan"),
    }
}

#[test]
fn proto1_rules_are_excluded_from_matching() {
    let table = table(vec![rule(-98, 1, "__DNS_HIDE_RC1", "210.35.88.5", 53, 53)], vec![], vec![]);
    let matcher = RouteMatcher::from_table(table).unwrap();
    let plan = ready(matcher.plan("210.35.88.5", 53));
    match plan {
        RoutePlan::Fallback { reason, reserved_proto1, .. } => {
            assert!(reason.contains("matched reserved proto=1 rule"));
            assert!(reserved_proto1);
        }
        _ => panic!("expected fallback plan"),
    }
}

#[test]
fn the_first_rule_that_fits_decides() {
    let table = table(
        vec![
            rule(1, 0, "other port", "10.0.0.1", 80, 80),
            rule(2, 1, "reserved", "10.0.0.1", 1, 65535),
            rule(3, 0, "range", "10.0.0.9~10.0.0.0", 443, 443),
            rule(4, 0, "exact", "10.0.0.1", 443, 443),
        ],
        vec![],
        vec![],
    );
    let matcher = RouteMatcher::from_table(table).unwrap();
    assert_eq!(matcher.rules.len(), 3);
    assert_eq!(matcher.proto1_rules.len(), 1);
    match ready(matcher.plan(" 10.0.0.1 ", 443)) {
        RoutePlan::Remote { rc_id, dial, .. } => {
            assert_eq!(rc_id, 3);
            assert_eq!(dial, "10.0.0.1:443");
        }
        _ => panic!("expected remote plan"),
    }
}

#[test]
fn malformed_rules_and_records_are_left_out() {
    let table = table(
        vec![rule(1, 0, "", "10.0.0.1~x", 1, 2), rule(2, 0, "", " . ", 1, 2)],
        vec![],
        vec![record(1, "h", "10.0.0.256"), record(1, " ", "10.0.0.1"), record(1, "h", "01.0.0.1")],
    );
    let matcher = RouteMatcher::from_table(table).unwrap();
    assert!(matcher.rules.is_empty());
    assert_eq!(matcher.dns_records, 0);
}

fn extra(entries: &[&str], host: &str) -> RoutePlan {
    let entries: Vec<String> = entries.iter().map(|s| s.to_string()).collect();
    let matcher =
        RouteMatcher::from_table_with_extra(table(vec![], vec![], vec![]), &entries).unwrap();
    ready(matcher.plan(host, 80))
}

fn is_extra(plan: RoutePlan, ip: &str) -> bool {
    match plan {
        RoutePlan::Remote { dial, rc_id, rc_name, source } => {
            dial == format!("{ip}:80")
                && rc_id == 0
                && rc_name == "--extra"
                && source == RouteSource::ExtraIp
                && source.label() == "extra-ip"
        }
        RoutePlan::Fallback { .. } => false,
    }
}

#[test]
fn extra_ip_single_match() {
    assert!(is_extra(extra(&["10.50.2.206"], "10.50.2.206"), "10.50.2.206"));
}

#[test]
fn extra_ip_range_match() {
    assert!(is_extra(extra(&["10.50.2.1~10.50.2.254"], "10.50.2.1"), "10.50.2.1"));
    assert!(is_extra(extra(&["10.50.2.254 ~ 10.50.2.1"], "10.50.2.254"), "10.50.2.254"));
}

#[test]
fn extra_ip_cidr_match() {
    assert!(is_extra(extra(&["10.50.2.7/24"], "10.50.2.0"), "10.50.2.0"));
    assert!(is_extra(extra(&["10.50.2.0/24"], "10.50.2.255"), "10.50.2.255"));
    assert!(is_extra(extra(&["0.0.0.0/0"], "255.255.255.255"), "255.255.255.255"));
    assert!(is_extra(extra(&["10.0.0.1/32"], "10.0.0.1"), "10.0.0.1"));
}

#[test]
fn extra_ip_no_match() {
    for (entry, host) in [
        ("10.50.2.206", "10.50.2.207"),
        ("10.50.2.1~10.50.2.254", "10.50.2.255"),
        ("10.50.2.0/24", "10.50.3.0"),
        ("10.0.0.1/32", "10.0.0.2"),
        ("10.50.2.0/24", "example.com"),
    ] {
        match extra(&[entry], host) {
            RoutePlan::Fallback { reason, .. } => assert_eq!(reason, "no whitelist rule matched"),
            RoutePlan::Remote { .. } => panic!("expected fallback plan"),
        }
    }
}

#[test]
fn malformed_extra_entries_stand_for_nothing() {
    for entry in ["", "x", "10.0.0.0/33", "10.0.0.0/", "/8", "10.0.0.1~", "example.com", "::1"] {
        assert!(parse_extra_ip(entry).is_none());
    }
}

#[test]
fn extra_entries_go_before_reserved_rules() {
    let t = table(vec![rule(-98, 1, "reserved", "10.0.0.1", 1, 65535)], vec![], vec![]);
    let matcher = RouteMatcher::from_table_with_extra(t, &vec!["10.0.0.1".to_string()]).unwrap();
    assert!(is_extra(ready(matcher.plan("10.0.0.1", 80)), "10.0.0.1"));
}

#[test]
fn tunnel_fallback_mode_routes_everything_remote() {
    let mut router = Router::NotInitialized;
    let mut cache = DnsCache::new();
    assert_eq!(
        plan_target(&router, "example.com", 443).unwrap_err().to_string(),
        "runtime failure: route matcher is not initialized"
    );
    install_tunnel_fallback(&mut router, &mut cache);
    for (host, dial) in [("example.com", "example.com:443"), ("10.0.0.1", "10.0.0.1:443")] {
        match ready(plan_target(&router, host, 443).unwrap()) {
            RoutePlan::Remote { dial: got, source, .. } => {
                assert_eq!(got, dial);
                assert_eq!(source, RouteSource::RouteTableUnavailable);
                assert_eq!(source.label(), "route-table-unavailable");
            }
            RoutePlan::Fallback { .. } => panic!("expected remote plan"),
        }
    }
}

#[test]
fn installing_a_table_counts_and_clears() {
    let mut router = Router::TunnelFallback;
    let mut cache = DnsCache::new();
    cache.cache_put(1, "a", Ipv4Addr::new(1, 2, 3, 4), 0);
    let t = table(
        vec![rule(1, 0, "x", "a", 1, 2), rule(1, 1, "y", "b", 1, 2)],
        vec!["1.1.1.1", "8.8.8.8"],
        vec![record(1, "a", "10.0.0.1")],
    );
    let summary =
        install_route_table(&mut router, &mut cache, t, &vec!["10.9.9.9".to_string()]).unwrap();
    assert_eq!(summary.rule_count, 1);
    assert_eq!(summary.dns_server_count, 2);
    assert_eq!(summary.dns_record_count, 1);
    assert!(cache.cache_get(1, "a", 1).is_none());
    assert!(is_extra(ready(plan_target(&router, "10.9.9.9", 80).unwrap()), "10.9.9.9"));
}

#[test]
fn details_list_every_item() {
    let t = table(
        vec![rule(1, 0, "x", "a", 1, 2)],
        vec!["1.1.1.1"],
        vec![record(-1, "a", "10.0.0.1")],
    );
    assert_eq!(
        log_table_details(&t, &vec!["10.0.0.0/8".to_string()]),
        "rule rc_id=1 proto=0 name=x host=a port=1~2\ndns-server 1.1.1.1\ndns-record rc_id=-1 host=a ip=10.0.0.1\nextra 10.0.0.0/8\n"
    );
}

#[test]
fn sources_have_labels() {
    let server = SocketAddr::V4 { ip: Ipv4Addr::new(1, 1, 1, 1), port: 53 };
    assert_eq!(RouteSource::RuleIp.describe(), "rule-ip");
    assert_eq!(RouteSource::DnsMap.describe(), "dns-map");
    assert_eq!(RouteSource::DnsServerQuery(server).label(), "dns-server");
    assert_eq!(
        RouteSource::CnameDnsServerQuery(server).describe(),
        "cname-dns-server(1.1.1.1:53)"
    );
    assert!(RouteSource::DnsServerCache.server().is_none());
}

#[test]
fn failed_lookups_are_shortened() {
    let table = table(vec![rule(1, 0, "x", "a", 1, 9)], vec!["1.1.1.1"], vec![]);
    let matcher = RouteMatcher::from_table(table).unwrap();
    let pending = match matcher.plan("a", 9) {
        PlanStep::Lookup(pending) => pending,
        PlanStep::Ready(_) => panic!("expected a lookup"),
    };
    match pending.finish(Err(EcError::Runtime("why".to_string()))) {
        RoutePlan::Fallback { reason, .. } => assert!(reason.ends_with("lookup failed: why")),
        RoutePlan::Remote { .. } => panic!("expected fallback plan"),
    }
}

#[test]
fn letters_may_be_of_either_case() {
    let matcher = RouteMatcher::from_table(table(
        vec![rule(1, 0, "a", "IDS.Example.org.", 1, 65535)],
        vec![],
        vec![record(1, "ids.EXAMPLE.org", "10.1.2.3")],
    ))
    .unwrap();
    for host in ["ids.example.org", " IDS.EXAMPLE.ORG.. "] {
        match ready(matcher.plan(host, 443)) {
            RoutePlan::Remote { dial, source, .. } => {
                assert_eq!(dial, "10.1.2.3:443");
                assert_eq!(source, RouteSource::DnsMap);
            }
            RoutePlan::Fallback { .. } => panic!("not remote"),
        }
    }
}

#[test]
fn lookups_ask_the_servers_of_the_table() {
    let matcher = RouteMatcher::from_table(table(
        vec![rule(3, 0, "a", "a.example", 1, 65535)],
        vec![" nonsense ", "10.0.0.1", "10.0.0.2:5353"],
        vec![],
    ))
    .unwrap();
    let pending = match matcher.plan("A.example.", 443) {
        PlanStep::Lookup(pending) => pending,
        PlanStep::Ready(_) => panic!("nothing to look up"),
    };
    let mut cache = DnsCache::new();
    let (mut lookup, step) = matcher.begin_lookup(&pending, &mut cache, 1000);
    match step {
        LookupStep::Ask(server) => assert_eq!(server.to_string(), "10.0.0.1:53"),
        LookupStep::Done(_) => panic!("nobody asked"),
    }
    match lookup.answer(&mut cache, 1100, Err(EcError::Runtime("down".to_string()))) {
        LookupStep::Ask(server) => assert_eq!(server.to_string(), "10.0.0.2:5353"),
        LookupStep::Done(_) => panic!("nobody asked"),
    }
    let ip = Ipv4Addr::new(10, 9, 8, 7);
    assert!(matches!(lookup.answer(&mut cache, 1200, Ok(ip)), LookupStep::Done(Ok(_))));
    match matcher.begin_lookup(&pending, &mut cache, 301_199).1 {
        LookupStep::Done(Ok(found)) => {
            assert_eq!(found, ResolveResult { ip, source: ResolveSource::Cache });
        }
        _ => panic!("not kept"),
    }
    assert!(matches!(matcher.begin_lookup(&pending, &mut cache, 301_200).1, LookupStep::Ask(_)));
}

#[test]
fn servers_keep_their_first_form_and_stay() {
    let servers = vec![" Dns.A ", "", "10.0.0.1", "dns.a", " ", "10.0.0.1", "B"];
    let once = RouteMatcher::from_table(table(vec![], servers, vec![])).unwrap().dns_servers;
    assert_eq!(once, vec!["Dns.A", "10.0.0.1", "B"]);
    let again = once.iter().map(|s| s.as_str()).collect();
    let twice = RouteMatcher::from_table(table(vec![], again, vec![])).unwrap().dns_servers;
    assert_eq!(twice, once);
    let typed: Vec<String> = ["b", " B", "a "].iter().map(|s| s.to_string()).collect();
    assert_eq!(normalize_dns_servers(&typed), vec!["b", "a"]);
}

#[test]
fn ranges_compile_either_way() {
    for (host, count) in [
        ("10.0.0.1~10.0.0.9", 1),
        ("10.0.0.9~10.0.0.1", 1),
        ("10.0.0.1~b", 0),
        ("a~10.0.0.1", 0),
        ("a~b", 0),
    ] {
        let m = RouteMatcher::from_table(table(vec![rule(4, 0, "n", host, 5, 6)], vec![], vec![]))
            .unwrap();
        assert_eq!(m.rules.len(), count, "{}", host);
        assert_eq!(compile_rule(&rule(4, 0, "n", host, 5, 6)).is_some(), count == 1);
        for compiled in &m.rules {
            assert_eq!((compiled.rc_id, compiled.rc_name.as_str()), (4, "n"));
            assert_eq!((compiled.port.start, compiled.port.end), (5, 6));
            assert!(matches!(
                compiled.matcher,
                ec_core::routing::HostMatcher::Ipv4Range(0x0a00_0001, 0x0a00_0009)
            ));
        }
    }
}
