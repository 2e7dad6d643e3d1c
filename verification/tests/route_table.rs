use ec_core::route_table::{
    extract_xml_payload, fetch_route_table, parse_dns_record_item, parse_rc, parse_route_table_xml,
    push_dns_servers, route_table_request, split_hosts, split_ports, take_event, take_response,
    RouteTable, XmlAttribute, XmlEvent,
};
use ec_core::stream::ReadOutcome;

#[test]
fn split_hosts_normalizes_scheme_and_path() {
    let hosts = split_hosts("http://a.example/x;https://b.example;y.example");
    assert_eq!(
        hosts,
        vec![
            "a.example".to_string(),
            "b.example".to_string(),
            "y.example".to_string()
        ]
    );
}

#[test]
fn split_hosts_leaves_empty_ones_out() {
    assert_eq!(split_hosts(" ; http:// ;/x; a "), vec!["a".to_string()]);
    assert!(split_hosts("").is_empty());
}

#[test]
fn split_ports_parses_ranges() {
    let ports = split_ports("80~80;443~445;53");
    assert_eq!(ports.len(), 3);
    assert_eq!(ports[0].start, 80);
    assert_eq!(ports[1].end, 445);
    assert_eq!(ports[2].start, 53);
    assert_eq!(ports[2].end, 53);
}

#[test]
fn split_ports_leaves_malformed_ones_out() {
    let ports = split_ports("x; 1 ~ 2 ;70000;~5;5~;;9");
    assert_eq!(ports.len(), 2);
    assert_eq!((ports[0].start, ports[0].end), (1, 2));
    assert_eq!((ports[1].start, ports[1].end), (9, 9));
}

#[test]
fn parse_xml_extracts_rules_and_dns() {
    let xml = r#"<?xml version="1.0" encoding="utf-8"?>
<Resource>
  <Rcs>
    <Rc id="205" name="IDS" host="ids.shiep.edu.cn;10.1.2.3" port="443~443;80~80" />
  </Rcs>
  <Dns dnsserver="210.35.88.5;114.114.114.114" data="205:ids.shiep.edu.cn:10.166.35.11;" />
</Resource>"#;
    let table = parse_route_table_xml(xml).unwrap();
    assert_eq!(table.rules.len(), 2);
    assert_eq!(table.dns_servers.len(), 2);
    assert_eq!(table.dns_records.len(), 1);
    assert_eq!(table.dns_records[0].host, "ids.shiep.edu.cn");
    assert_eq!(table.dns_records[0].ip, "10.166.35.11");
    assert_eq!(table.rules[0].host, "ids.shiep.edu.cn");
    assert_eq!(table.rules[0].rc_id, 205);
    assert_eq!(table.rules[0].proto, 0);
    assert_eq!(table.rules[0].name, "IDS");
    assert_eq!(table.rules[1].host, "10.1.2.3");
    assert_eq!(table.rules[1].port.start, 80);
}

#[test]
fn parse_xml_unescapes_values_and_reads_open_tags() {
    let table = parse_route_table_xml(
        "<Resource><Rc id='1' name='a&amp;b' host='h' port='1'>text</Rc></Resource>",
    )
    .unwrap();
    assert_eq!(table.rules.len(), 1);
    assert_eq!(table.rules[0].name, "a&b");
}

#[test]
fn parse_xml_draws_the_shorter_list_out() {
    let table =
        parse_route_table_xml("<R><Rc id='1' host='a;b;c' port='1;2'/></R>").unwrap();
    let ports: Vec<u16> = table.rules.iter().map(|r| r.port.start).collect();
    let hosts: Vec<&str> = table.rules.iter().map(|r| r.host.as_str()).collect();
    assert_eq!(ports, vec![1, 2, 2]);
    assert_eq!(hosts, vec!["a", "b", "c"]);
}

#[test]
fn parse_xml_skips_incomplete_resources() {
    let table = parse_route_table_xml("<R><Rc id='1' host='a'/><Rc id='x' host='a'/></R>").unwrap();
    assert!(table.rules.is_empty());
    assert!(table.dns_servers.is_empty());
    assert!(table.dns_records.is_empty());
}

#[test]
fn parse_xml_reports_errors() {
    assert_eq!(
        parse_route_table_xml("<R><Rc id='x' host='a' port='1'/></R>")
            .unwrap_err()
            .to_string(),
        "runtime failure: invalid rc id 'x': invalid digit found in string"
    );
    assert_eq!(
        parse_route_table_xml("<R><Rc id='99999999999' host='a' port='1'/></R>")
            .unwrap_err()
            .to_string(),
        "runtime failure: invalid rc id '99999999999': number too large to fit in target type"
    );
    let broken = parse_route_table_xml("<R></X>").unwrap_err().to_string();
    assert!(broken.starts_with("runtime failure: rclist xml parse failed: "));
    let attr = parse_route_table_xml("<R><Rc id=1 /></R>").unwrap_err().to_string();
    assert!(attr.starts_with("runtime failure: xml attr parse failed: "));
    let value = parse_route_table_xml("<R><Dns data='&nope;'/></R>").unwrap_err().to_string();
    assert!(value.starts_with("runtime failure: xml attr decode failed: "));
}

#[test]
fn events_are_taken_one_by_one() {
    let mut table = RouteTable { rules: vec![], dns_servers: vec![], dns_records: vec![] };
    let dns = XmlEvent::Element {
        name: b"Dns".to_vec(),
        attributes: vec![XmlAttribute::Pair {
            key: b"dnsserver".to_vec(),
            value: " 1.1.1.1 ;; 8.8.8.8".to_string(),
        }],
    };
    assert!(take_event(&mut table, &dns).unwrap());
    assert_eq!(table.dns_servers, vec!["1.1.1.1".to_string(), "8.8.8.8".to_string()]);
    assert!(take_event(&mut table, &XmlEvent::Other).unwrap());
    assert!(!take_event(&mut table, &XmlEvent::Eof).unwrap());
    assert_eq!(
        take_event(&mut table, &XmlEvent::Broken("why".to_string())).unwrap_err().to_string(),
        "runtime failure: rclist xml parse failed: why"
    );
}

#[test]
fn the_last_attribute_of_a_name_counts() {
    let pair = |k: &str, v: &str| XmlAttribute::Pair {
        key: k.as_bytes().to_vec(),
        value: v.to_string(),
    };
    let mut rules = vec![];
    parse_rc(
        &vec![pair("id", "1"), pair("host", "a"), pair("port", "7"), pair("id", "-2")],
        &mut rules,
    )
    .unwrap();
    assert_eq!(rules.len(), 1);
    assert_eq!(rules[0].rc_id, -2);
    assert_eq!(rules[0].name, "");
    let failed = parse_rc(
        &vec![XmlAttribute::BadValue("v".to_string()), XmlAttribute::BadSyntax("s".to_string())],
        &mut rules,
    );
    assert_eq!(failed.unwrap_err().to_string(), "runtime failure: xml attr decode failed: v");
    assert_eq!(rules.len(), 1);
}

#[test]
fn parse_dns_record_item_parses_valid_entry() {
    let rec = parse_dns_record_item("205:https://ids.shiep.edu.cn/path:10.166.35.11").unwrap();
    assert_eq!(rec.rc_id, 205);
    assert_eq!(rec.host, "ids.shiep.edu.cn");
    assert_eq!(rec.ip, "10.166.35.11");
}

#[test]
fn parse_dns_record_item_rejects_invalid_entry() {
    assert!(parse_dns_record_item("bad").is_none());
    assert!(parse_dns_record_item("not-int:host:10.0.0.1").is_none());
    assert!(parse_dns_record_item("1::10.0.0.1").is_none());
}

#[test]
fn push_dns_servers_adds_to_what_is_there() {
    let mut servers = vec!["a".to_string()];
    push_dns_servers(&mut servers, " b ; ;c");
    assert_eq!(servers, vec!["a".to_string(), "b".to_string(), "c".to_string()]);
}

#[test]
fn extract_xml_payload_finds_resource_start() {
    let raw = "HTTP/1.1 200 OK\r\n\r\n<Resource><Rcs/></Resource>";
    let xml = extract_xml_payload(raw).unwrap();
    assert!(xml.starts_with("<Resource>"));
}

#[test]
fn extract_xml_payload_prefers_the_declaration() {
    let raw = "\u{e4}<Resource><?xml version='1.0'?><Resource/>";
    assert_eq!(extract_xml_payload(raw).unwrap(), "<?xml version='1.0'?><Resource/>");
}

#[test]
fn extract_xml_payload_rejects_non_xml_text() {
    let err = extract_xml_payload("HTTP/1.1 200 OK\r\n\r\nhello").unwrap_err();
    assert!(err.to_string().contains("does not contain XML payload"));
}

#[test]
fn route_table_request_names_host_and_cookie() {
    let q = route_table_request("https://vpn.example.com/x", "ABC").unwrap();
    assert_eq!(q.authority, "vpn.example.com:443");
    assert_eq!(q.host, "vpn.example.com");
    assert_eq!(
        q.request,
        "GET /por/rclist.csp HTTP/1.1\r\nHost: vpn.example.com:443\r\nCookie: TWFID=ABC\r\nConnection: close\r\n\r\n"
    );
    assert!(route_table_request("", "ABC").is_err());
}

#[test]
fn responses_are_collected_until_they_end() {
    let mut raw = vec![];
    assert!(take_response(&mut raw, ReadOutcome::Data(b"ab".to_vec())).unwrap());
    assert!(take_response(&mut raw, ReadOutcome::Data(b"c".to_vec())).unwrap());
    assert!(!take_response(&mut raw, ReadOutcome::TimedOut).unwrap());
    assert!(!take_response(&mut raw, ReadOutcome::Eof).unwrap());
    assert_eq!(raw, b"abc");
    assert_eq!(
        take_response(&mut raw, ReadOutcome::Failed("reset".to_string())).unwrap_err().to_string(),
        "runtime failure: rclist response read failed: reset"
    );
}

#[test]
fn fetch_route_table_reads_a_response() {
    let raw = b"HTTP/1.1 200 OK\r\nX: \xff\r\n\r\n<Resource><Rc id='7' host='h' port='1'/></Resource>";
    let table = fetch_route_table(raw).unwrap();
    assert_eq!(table.rules.len(), 1);
    assert_eq!(table.rules[0].rc_id, 7);
    assert_eq!(
        fetch_route_table(b"").unwrap_err().to_string(),
        "runtime failure: rclist response is empty or timed out"
    );
}

#[test]
fn the_first_error_of_a_document_ends_the_reading() {
    let broken = "</a><Rc id='7' host='h' port='1'/>";
    let err = parse_route_table_xml(broken).unwrap_err().to_string();
    assert!(err.starts_with("runtime failure: rclist xml parse failed: "), "{}", err);
    assert!(parse_route_table_xml("abc").unwrap().rules.is_empty());
}

#[test]
fn every_host_and_port_stands_in_a_rule() {
    let xml = "<Resource><Rcs><Rc id=\"1\" name=\"n\" host=\"a;b;c\" port=\"1~2;3~4\"/></Rcs></Resource>";
    let rules = parse_route_table_xml(xml).unwrap().rules;
    let shown: Vec<(&str, u16)> = rules.iter().map(|r| (r.host.as_str(), r.port.start)).collect();
    assert_eq!(shown, vec![("a", 1), ("b", 3), ("c", 3)]);
}
