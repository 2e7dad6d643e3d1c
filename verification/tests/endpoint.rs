use ec_core::endpoint::{extract_host, has_explicit_port, normalize_authority, parse_server};
use ec_core::error::{concise_error, concise_message, RUNTIME_PREFIX};
use ec_core::EcError;

#[test]
fn parse_server_defaults_to_443() {
    let (authority, host) = parse_server("vpn.example.com").unwrap();
    assert_eq!(authority, "vpn.example.com:443");
    assert_eq!(host, "vpn.example.com");
}

#[test]
fn parse_server_keeps_explicit_port() {
    let (authority, host) = parse_server("https://vpn.example.com:8443").unwrap();
    assert_eq!(authority, "vpn.example.com:8443");
    assert_eq!(host, "vpn.example.com");
}

#[test]
fn parse_server_ipv6_with_port() {
    let (authority, host) = parse_server("https://[2001:db8::1]:443").unwrap();
    assert_eq!(authority, "[2001:db8::1]:443");
    assert_eq!(host, "2001:db8::1");
}

#[test]
fn parse_server_ipv6_without_port() {
    let (authority, host) = parse_server("[2001:db8::1]").unwrap();
    assert_eq!(authority, "[2001:db8::1]:443");
    assert_eq!(host, "2001:db8::1");
}

#[test]
fn parse_server_drops_path_and_white_space() {
    let (authority, host) = parse_server("  http://vpn.example.com/login/x \n").unwrap();
    assert_eq!(authority, "vpn.example.com:443");
    assert_eq!(host, "vpn.example.com");
}

#[test]
fn host_and_port_helpers() {
    assert!(has_explicit_port("vpn.example.com:443"));
    assert!(has_explicit_port("[2001:db8::1]:443"));
    assert!(!has_explicit_port("vpn.example.com"));
    assert!(!has_explicit_port("vpn.example.com:abc"));
    assert_eq!(
        extract_host("vpn.example.com:443").unwrap(),
        "vpn.example.com"
    );
}

#[test]
fn ports_are_sixteen_bits() {
    assert!(has_explicit_port("h:65535"));
    assert!(has_explicit_port("h:+80"));
    assert!(has_explicit_port("h:00080"));
    assert!(!has_explicit_port("h:65536"));
    assert!(!has_explicit_port("h:-1"));
    assert!(!has_explicit_port("h:"));
    assert_eq!(normalize_authority("h:").unwrap(), "h::443");
}

#[test]
fn parse_server_rejects_invalid_port() {
    let err = parse_server("vpn.example.com:abc").unwrap_err();
    assert!(
        err.to_string()
            .contains("invalid config: invalid server port")
    );
}

#[test]
fn parse_server_rejects_what_names_no_host() {
    assert_eq!(
        parse_server("   ").unwrap_err().to_string(),
        "invalid config: server is required"
    );
    assert_eq!(
        parse_server("https:///x").unwrap_err().to_string(),
        "runtime failure: invalid server authority"
    );
    assert_eq!(
        parse_server(":443").unwrap_err().to_string(),
        "runtime failure: invalid host in server authority"
    );
    assert_eq!(
        parse_server("[::1").unwrap_err().to_string(),
        "runtime failure: invalid ipv6 authority format"
    );
}

#[test]
fn concise_message_strips_single_runtime_prefix() {
    let message = format!("{RUNTIME_PREFIX}socket closed");
    assert_eq!(concise_message(message), "socket closed");
}

#[test]
fn concise_message_strips_repeated_runtime_prefixes() {
    let message = format!("{RUNTIME_PREFIX}{RUNTIME_PREFIX}inner failure");
    assert_eq!(concise_message(message), "inner failure");
}

#[test]
fn concise_message_is_idempotent() {
    let once = concise_message(format!("{RUNTIME_PREFIX}a: {RUNTIME_PREFIX}b"));
    assert_eq!(once, format!("a: {RUNTIME_PREFIX}b"));
    assert_eq!(concise_message(once.clone()), once);
}

#[test]
fn errors_in_words() {
    assert_eq!(EcError::InvalidConfig("x").to_string(), "invalid config: x");
    assert_eq!(EcError::Unsupported("x").to_string(), "unsupported: x");
    assert_eq!(EcError::NotImplemented("x").to_string(), "not implemented: x");
    assert_eq!(EcError::Runtime("x".to_string()).to_string(), "runtime failure: x");
    let inner = EcError::Runtime("x".to_string());
    let outer = EcError::Runtime(inner.to_string());
    assert_eq!(concise_error(&outer), concise_error(&inner));
    assert_eq!(concise_error(&EcError::Unsupported("x")), "unsupported: x");
}

#[test]
fn authorities_lead_to_themselves() {
    for server in ["https://vpn.example.com:8443/x", " vpn.example.com ", "[2001:db8::1]:443", "h:"] {
        let (authority, host) = parse_server(server).unwrap();
        assert_eq!(parse_server(&authority).unwrap(), (authority, host));
    }
    let (authority, host) = parse_server("[a]b").unwrap();
    assert_eq!((authority.as_str(), host.as_str()), ("[a]b:443", "a"));
    assert_eq!(parse_server("[a]b:443").unwrap().0, "[a]b:443:443");
}
