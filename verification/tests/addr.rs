use ec_core::addr::{
    parse_ipv4, parse_ipv6, parse_socket_addr, Ipv4Addr, Ipv6Addr, SocketAddr, SocketAddrV4,
};
use ec_core::text;

fn chars(s: &str) -> Vec<char> {
    s.chars().collect()
}

#[test]
fn ipv4_text_round_trip() {
    for bits in [0u32, 1, 255, 256, 0x0a32_02ce, 0xffff_ffff, 0x7f00_0001] {
        let ip = Ipv4Addr { bits };
        assert_eq!(parse_ipv4(&chars(&ip.to_string())), Some(ip));
        let o = ip.octets();
        assert_eq!(Ipv4Addr::new(o[0], o[1], o[2], o[3]), ip);
    }
    assert_eq!(Ipv4Addr::new(10, 50, 2, 206).to_string(), "10.50.2.206");
}

#[test]
fn ipv4_text_is_strict() {
    for s in ["", "1.2.3", "1.2.3.4.5", "01.2.3.4", "1.2.3.256", "1.2.3.4 ", "1..2.3", "+1.2.3.4", "0x1.2.3.4", "1.2.3.1234"] {
        assert!(parse_ipv4(&chars(s)).is_none(), "{}", s);
    }
}

#[test]
fn ipv6_text_forms() {
    for (s, groups, shown) in [
        ("::", [0, 0, 0, 0, 0, 0, 0, 0], "::"),
        ("::1", [0, 0, 0, 0, 0, 0, 0, 1], "::1"),
        ("1::", [1, 0, 0, 0, 0, 0, 0, 0], "1::"),
        ("2001:DB8::1", [0x2001, 0xdb8, 0, 0, 0, 0, 0, 1], "2001:db8::1"),
        ("1:2:3:4:5:6:7:8", [1, 2, 3, 4, 5, 6, 7, 8], "1:2:3:4:5:6:7:8"),
        ("1:2:3:4:5:6:7::", [1, 2, 3, 4, 5, 6, 7, 0], "1:2:3:4:5:6:7:0"),
        ("::1.2.3.4", [0, 0, 0, 0, 0, 0, 0x102, 0x304], "::102:304"),
        ("::ffff:1.2.3.4", [0, 0, 0, 0, 0, 0xffff, 0x102, 0x304], "::ffff:1.2.3.4"),
        ("1:2:3:4:5:6:1.2.3.4", [1, 2, 3, 4, 5, 6, 0x102, 0x304], "1:2:3:4:5:6:102:304"),
        ("1:0:0:2:0:0:0:3", [1, 0, 0, 2, 0, 0, 0, 3], "1:0:0:2::3"),
        ("1:0:0:2:3:0:0:4", [1, 0, 0, 2, 3, 0, 0, 4], "1::2:3:0:0:4"),
    ] {
        let ip = parse_ipv6(&chars(s)).unwrap();
        assert_eq!(ip.segments, groups, "{}", s);
        assert_eq!(ip.to_string(), shown);
        assert_eq!(parse_ipv6(&chars(shown)), Some(ip));
        assert_eq!(Ipv6Addr::from_octets(&ip.octets()), ip);
    }
}

#[test]
fn ipv6_text_is_strict() {
    for s in [
        "", ":", ":::", "1:::2", "1::2::3", "1:2:3:4:5:6:7", "1:2:3:4:5:6:7:8:9", "12345::",
        "1:2:3:4:5:6:7::8", "1:2:3:4:5:6::1.2.3.4", "1.2.3.4::", "::1.2.3.4:5", "g::", "::1%1",
        "1:2:3:4:5:6:7:1.2.3.4", ":1::", "1:2:3:4:5:6:7:8:",
    ] {
        assert!(parse_ipv6(&chars(s)).is_none(), "{}", s);
    }
}

#[test]
fn socket_text_forms() {
    for s in ["1.2.3.4:80", "[::1]:53", "[fe80::1%3]:53", "0.0.0.0:0"] {
        assert_eq!(parse_socket_addr(&chars(s)).unwrap().to_string(), s);
    }
    for s in ["1.2.3.4", "1.2.3.4:", "1.2.3.4:65536", "1.2.3.4:+1", "::1:53", "[::1]", "[::1]53", "[::1%]:1", "[::1", "]"] {
        assert!(parse_socket_addr(&chars(s)).is_none(), "{}", s);
    }
    let a = SocketAddrV4::new(Ipv4Addr::new(1, 2, 3, 4), 80);
    assert_eq!(a.to_string(), "1.2.3.4:80");
}

#[test]
fn socket_addresses_are_compared() {
    let a = parse_socket_addr(&chars("[::1]:53")).unwrap();
    let b = parse_socket_addr(&chars("[::2]:53")).unwrap();
    let c = SocketAddr::V4 { ip: Ipv4Addr::new(1, 2, 3, 4), port: 53 };
    assert!(a.same(&a));
    assert!(!a.same(&b));
    assert!(!a.same(&c));
    assert!(c.same(&c));
    let ip6 = Ipv6Addr::new([0, 0, 0, 0, 0, 0, 0, 1]);
    let labelled = SocketAddr::V6 { ip6, port: 53, flow: 7, scope: 0 };
    assert!(!a.same(&labelled));
    assert_eq!(labelled.to_string(), "[::1]:53");
}

#[test]
fn text_is_trimmed_and_split() {
    assert_eq!(text::trim(&chars("\u{a0} a b\t\u{2003}")), chars("a b").as_slice());
    assert_eq!(text::trim(&chars(" \n ")), chars("").as_slice());
    assert_eq!(text::split(&chars("a;;b"), ';'), vec![chars("a"), chars(""), chars("b")]);
    assert_eq!(text::split(&chars(""), ';'), vec![chars("")]);
    assert_eq!(text::split_whitespace(&chars("  a \u{3000}bc ")), vec![chars("a"), chars("bc")]);
    assert_eq!(text::lower(&chars("AbZ\u{c4}")), chars("abz\u{c4}"));
    assert_eq!(text::trim_end_matches(&chars("a.."), '.'), chars("a").as_slice());
}

#[test]
fn numbers_are_read_and_written() {
    assert_eq!(text::decimal_u64(0), "0");
    assert_eq!(text::decimal_u64(u64::MAX), "18446744073709551615");
    assert_eq!(text::decimal_i32(i32::MIN), "-2147483648");
    assert_eq!(text::hex_u8(0x0f), "0f");
    assert_eq!(text::parse_u16(&chars("+65535")), Some(65535));
    assert_eq!(text::parse_u16(&chars("65536")), None);
    assert_eq!(text::parse_i32(&chars("-2147483648")), Ok(i32::MIN));
    assert_eq!(text::parse_i32(&chars("-2147483649")), Err(text::NumberError::NegOverflow));
    assert_eq!(text::parse_i32(&chars("2147483648")), Err(text::NumberError::PosOverflow));
    assert_eq!(text::parse_i32(&chars("")), Err(text::NumberError::Empty));
    assert_eq!(text::parse_i32(&chars("-")), Err(text::NumberError::InvalidDigit));
    for s in ["", "-", "+", "x", "99999999999", "-99999999999", "1x", "+7", "-7", "007"] {
        let ours = text::parse_i32(&chars(s)).map_err(|e| e.message());
        let theirs = s.parse::<i32>().map_err(|e| e.to_string());
        assert_eq!(ours, theirs);
    }
}
