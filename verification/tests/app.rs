use ec_core::app::Stage;
use ec_core::auth::login;
use ec_core::dns_resolver::DnsCache;
use ec_core::output::{error, info, warn, Scope};
use ec_core::route_table::{PortRange, RouteRule, RouteTable};
use ec_core::routing::Router;
use ec_core::stream::ReadOutcome;
use ec_core::token::{
    build_token_request, fetch_agent_token, request_agent_token, take_token_response,
};
use ec_core::{AppConfig, EasyConnectApp, EcError};

fn config(details: bool) -> AppConfig {
    AppConfig::new(
        "vpn".to_string(),
        "alice".to_string(),
        "secret".to_string(),
        "127.0.0.1:1080".to_string(),
        None,
        vec!["10.0.0.1".to_string()],
        details,
    )
    .unwrap()
}

#[test]
fn build_token_request_contains_expected_paths_and_cookie() {
    let req = build_token_request("vpn.example.com:443", "ABCDEF");
    assert!(req.contains("GET /por/conf.csp HTTP/1.1"));
    assert!(req.contains("GET /por/rclist.csp HTTP/1.1"));
    assert!(req.contains("Host: vpn.example.com:443"));
    assert!(req.contains("Cookie: TWFID=ABCDEF"));
}

#[test]
fn token_requests_are_written_twice() {
    let q = request_agent_token("vpn", "X").unwrap();
    assert_eq!(q.authority, "vpn:443");
    assert_eq!(q.host, "vpn");
    assert_eq!(
        q.request,
        "GET /por/conf.csp HTTP/1.1\r\nHost: vpn:443\r\nCookie: TWFID=X\r\nConnection: keep-alive\r\n\r\nGET /por/rclist.csp HTTP/1.1\r\nHost: vpn:443\r\nCookie: TWFID=X\r\nConnection: close\r\n\r\n"
    );
    assert!(request_agent_token(" ", "X").is_err());
}

#[test]
fn tokens_are_cut_from_the_session_id() {
    let id: Vec<u8> = (0xa0..0xb0).collect();
    assert_eq!(
        fetch_agent_token(&vec![1], Some(&id)).unwrap(),
        "a0a1a2a3a4a5a6a7a8a9aaabacadaea\0"
    );
    let failure = |response: Vec<u8>, id: Option<&[u8]>| {
        fetch_agent_token(&response, id).unwrap_err().to_string()
    };
    assert_eq!(
        failure(vec![], Some(&id)),
        "runtime failure: token response is empty or timed out"
    );
    assert_eq!(failure(vec![1], None), "runtime failure: missing server tls session");
    assert_eq!(failure(vec![1], Some(&[])), "runtime failure: server tls session id is empty");
    assert_eq!(
        failure(vec![1], Some(&id[..15])),
        "runtime failure: server session id hex too short: 30"
    );
}

#[test]
fn token_responses_are_collected() {
    let mut sink = vec![];
    assert!(take_token_response(&mut sink, ReadOutcome::Data(vec![1])).unwrap());
    assert!(!take_token_response(&mut sink, ReadOutcome::TimedOut).unwrap());
    assert!(!take_token_response(&mut sink, ReadOutcome::Eof).unwrap());
    assert_eq!(sink, vec![1]);
    assert_eq!(
        take_token_response(&mut sink, ReadOutcome::Failed("x".to_string()))
            .unwrap_err()
            .to_string(),
        "runtime failure: token response read failed: x"
    );
}

#[test]
fn runs_take_their_steps_in_order() {
    let app = EasyConnectApp::new(config(false));
    let mut stage = Stage::Preconditions;
    let mut seen = vec![stage];
    while let Some(next) = app.run(stage, Ok(())).unwrap() {
        stage = next;
        seen.push(stage);
    }
    assert_eq!(
        seen,
        vec![
            Stage::Preconditions,
            Stage::Login,
            Stage::RouteTable,
            Stage::AgentToken,
            Stage::CommandStream,
            Stage::Tunnel,
            Stage::Netstack,
            Stage::Serve
        ]
    );
    assert_eq!(
        app.run(Stage::Login, Err(EcError::NotImplemented("auth.login")))
            .unwrap_err()
            .to_string(),
        "not implemented: auth.login"
    );
    assert_eq!(
        app.run(Stage::RouteTable, Err(EcError::Runtime("x".to_string()))).unwrap(),
        Some(Stage::AgentToken)
    );
    let lost = EcError::Runtime("tunnel terminated: x".to_string());
    assert_eq!(
        app.run(Stage::Serve, Err(lost)).unwrap_err().to_string(),
        "runtime failure: tunnel terminated: x"
    );
    assert_eq!(app.config().server, "vpn");
    assert!(login(app.config()).is_err());
}

#[test]
fn a_table_is_installed_or_done_without() {
    let app = EasyConnectApp::new(config(true));
    let mut router = Router::NotInitialized;
    let mut cache = DnsCache::new();
    let table = RouteTable {
        rules: vec![RouteRule {
            rc_id: 1,
            proto: 0,
            name: "n".to_string(),
            host: "h".to_string(),
            port: PortRange { start: 1, end: 2 },
        }],
        dns_servers: vec![],
        dns_records: vec![],
    };
    let done = app.try_install_route_table(&mut router, &mut cache, Ok(table.clone()));
    assert_eq!(
        done.details.unwrap(),
        "rule rc_id=1 proto=0 name=n host=h port=1~2\nextra 10.0.0.1\n"
    );
    assert_eq!(
        done.loaded.unwrap(),
        "route table loaded: 1 rules, 0 dns servers, 0 dns records"
    );
    assert!(done.warnings.is_empty());
    assert!(matches!(router, Router::Table(_)));
    let failed = app.try_install_route_table(
        &mut router,
        &mut cache,
        Err(EcError::Runtime("x".to_string())),
    );
    assert_eq!(
        failed.warnings,
        vec![
            "route table unavailable: x".to_string(),
            "split routing is disabled; fallback will use tunnel".to_string()
        ]
    );
    assert!(failed.details.is_none() && failed.loaded.is_none());
    assert!(matches!(router, Router::TunnelFallback));
    let quiet = EasyConnectApp::new(config(false));
    let done = quiet.try_install_route_table(&mut router, &mut cache, Ok(table));
    assert!(done.details.is_none());
}

#[test]
fn runs_say_what_they_got() {
    assert_eq!(EasyConnectApp::acquire_protocol_token("agent", "twf"), "agenttwf");
    assert_eq!(EasyConnectApp::session_line("twf"), "session id acquired: twf");
    assert_eq!(EasyConnectApp::assigned_line([10, 0, 0, 1]), "assigned IP: 10.0.0.1");
}

#[test]
fn lines_are_tagged_and_colored() {
    assert_eq!(
        info(Scope::Netstack, "T", "m"),
        "T \u{1b}[38;5;33m[NETSTACK]\u{1b}[0m m"
    );
    assert_eq!(
        warn(Scope::Cli, "T", "m"),
        "T \u{1b}[38;5;220m[WARN]\u{1b}[0m\u{1b}[38;5;117m[CLI]\u{1b}[0m m"
    );
    assert_eq!(
        error(Scope::App, "T", "m"),
        "T \u{1b}[38;5;196m[ERROR]\u{1b}[0m\u{1b}[38;5;81m[APP]\u{1b}[0m m"
    );
}
