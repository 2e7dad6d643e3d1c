//! The local SOCKS5 server: how it listens, where it sends connections and datagrams, and
//! what it says about it.

use vstd::prelude::*;
use crate::addr;
use crate::addr::{SocketAddr, SocketAddrV4, SocketAddrView};
use crate::error;
use crate::error::{EcError, EcErrorView, EcResult};
use crate::routing;
use crate::routing::{RoutePlan, RouteSource};
use crate::socks_proxy;
use crate::socks_proxy::FallbackProxy;
use crate::socks_wire;
use crate::socks_wire::{
    ConnectTarget, SocksCommand, SocksUdpPacket, SOCKS_REP_CMD_NOT_SUPPORTED,
    SOCKS_REP_GENERAL_FAILURE,
};
use crate::stream::ReadOutcome;
use crate::text;

verus! {

/// How much is read from a connection at once.
pub const RELAY_BUFFER_SIZE: usize = 4096;

/// The longest datagram that is relayed.
pub const UDP_RELAY_BUFFER_SIZE: usize = 65536;

// ---------------------------------------------------------------------------
// Listening
// ---------------------------------------------------------------------------

/// The address to listen on: a port alone means every interface.
pub open spec fn bind_of(bind_addr: Seq<char>) -> Seq<char> {
    if bind_addr.len() > 0 && bind_addr[0] == ':' {
        "0.0.0.0"@ + bind_addr
    } else {
        bind_addr
    }
}

/// The address to listen on: a port alone means every interface.
pub fn normalize_bind_addr(bind_addr: &str) -> (r: String)
    ensures
        r@ == bind_of(bind_addr@),
{
    let cs = text::chars_of(bind_addr);
    if cs.len() > 0 && cs[0] == ':' {
        "0.0.0.0".to_owned().concat(bind_addr)
    } else {
        bind_addr.to_owned()
    }
}

/// What a server is started with.
#[derive(Debug)]
pub struct ServePlan {
    /// The address to listen on.
    pub bind: String,
    /// The proxy for what does not go through the tunnel.
    pub proxy: Option<FallbackProxy>,
}

/// What a server is started with.
pub fn serve(bind_addr: &str, fallback_proxy: Option<&str>) -> (r: EcResult<ServePlan>)
    ensures
        match (r, socks_proxy::fallback_of(text::shown(fallback_proxy))) {
            (Ok(plan), Ok(p)) => plan.bind@ == bind_of(bind_addr@) && text::shown(plan.proxy) == p,
            (Err(e), Err(f)) => e@ == f,
            _ => false,
        },
{
    let bind = normalize_bind_addr(bind_addr);
    match socks_proxy::parse_fallback_proxy(fallback_proxy) {
        Err(e) => Err(e),
        Ok(proxy) => Ok(ServePlan { bind, proxy }),
    }
}

/// What a server says of its fallback when it starts.
pub open spec fn fallback_line(proxy: Option<socks_proxy::ProxyView>) -> Seq<char> {
    match proxy {
        Some(p) => "fallback: proxy to "@ + p.url,
        None => "fallback: direct"@,
    }
}

/// The two lines that a server says when it starts.
pub fn log_socks_startup(bind_addr: &str, fallback_proxy: &Option<FallbackProxy>) -> (r: (
    String,
    String,
))
    ensures
        r.0@ == fallback_line(text::shown(*fallback_proxy)),
        r.1@ == "socks listening on "@ + bind_addr@,
{
    let first = match fallback_proxy {
        Some(p) => "fallback: proxy to ".to_owned().concat(p.url.as_str()),
        None => "fallback: direct".to_owned(),
    };
    (first, "socks listening on ".to_owned().concat(bind_addr))
}

/// The error when the address to listen on cannot be had.
pub fn bind_failed(bind_addr: &str, cause: &str) -> (r: EcError)
    ensures
        r@ == EcErrorView::Runtime("socks bind failed on "@ + bind_addr@ + ": "@ + cause@),
{
    EcError::Runtime(
        "socks bind failed on ".to_owned().concat(bind_addr).concat(": ").concat(cause),
    )
}

/// The error with which a server ends once the tunnel is gone.
pub fn tunnel_terminated(reason: String) -> (r: EcError)
    ensures
        r@ == EcErrorView::Runtime("tunnel terminated: "@ + error::concise(reason@)),
{
    let short = error::concise_message(reason);
    EcError::Runtime("tunnel terminated: ".to_owned().concat(short.as_str()))
}

// ---------------------------------------------------------------------------
// Clients
// ---------------------------------------------------------------------------

/// What to do for a client whose request has been read.
#[derive(Debug)]
pub enum ClientStep {
    /// Connect it to its target.
    Connect,
    /// Relay its datagrams.
    UdpAssociate,
    /// Reply with the given code, and give up.
    Refuse { reply: u8, error: EcError },
}

/// What to do for a client whose request has been read.
pub fn handle_client(command: SocksCommand) -> (r: ClientStep)
    ensures
        match command {
            SocksCommand::Connect => r is Connect,
            SocksCommand::UdpAssociate => r is UdpAssociate,
            SocksCommand::Other(_) => {
                &&& r matches ClientStep::Refuse { reply, error }
                &&& reply == SOCKS_REP_CMD_NOT_SUPPORTED
                &&& error@ == EcErrorView::Runtime("unsupported socks command: "@ + command.text())
            },
        },
{
    match command {
        SocksCommand::Connect => ClientStep::Connect,
        SocksCommand::UdpAssociate => ClientStep::UdpAssociate,
        SocksCommand::Other(_) => {
            let shown = command.to_string();
            ClientStep::Refuse {
                reply: SOCKS_REP_CMD_NOT_SUPPORTED,
                error: EcError::Runtime(
                    "unsupported socks command: ".to_owned().concat(shown.as_str()),
                ),
            }
        },
    }
}

// ---------------------------------------------------------------------------
// Routes of connections
// ---------------------------------------------------------------------------

/// The ways a target can go, as they are shown.
#[derive(Debug, Clone, Copy, PartialEq, Eq, Structural)]
pub enum RouteKind {
    Remote,
    Fallback,
    Direct,
}

impl RouteKind {
    /// The name of the way.
    pub open spec fn text(self) -> Seq<char> {
        match self {
            RouteKind::Remote => "remote"@,
            RouteKind::Fallback => "fallback"@,
            RouteKind::Direct => "direct"@,
        }
    }

    /// The name of the way.
    pub fn label(self) -> (r: &'static str)
        ensures
            r@ == self.text(),
    {
        match self {
            RouteKind::Remote => "remote",
            RouteKind::Fallback => "fallback",
            RouteKind::Direct => "direct",
        }
    }
}

/// How a connection is carried.
#[derive(Debug)]
pub enum RouteTransport {
    /// Through the tunnel, to this address.
    Tunnel(String),
    /// Directly, to this address.
    Direct(String),
    /// By a proxy, to this target.
    Proxy(FallbackProxy, ConnectTarget),
}

/// How a connection is carried, and what is said about it.
#[derive(Debug)]
pub struct RouteDecision {
    /// What is said of the resolution of the target, if anything.
    pub note: Option<String>,
    /// What is said of the connection.
    pub line: String,
    /// What is said of the connection if it fails.
    pub path: String,
    pub transport: RouteTransport,
}

/// A transport as plain values.
#[verifier::ext_equal]
pub ghost enum TransportView {
    Tunnel(Seq<char>),
    Direct(Seq<char>),
    Proxy(socks_proxy::ProxyView, socks_wire::TargetView),
}

/// A decision as plain values.
#[verifier::ext_equal]
pub ghost struct DecisionView {
    pub note: Option<Seq<char>>,
    pub line: Seq<char>,
    pub path: Seq<char>,
    pub transport: TransportView,
}

impl View for RouteTransport {
    type V = TransportView;

    open spec fn view(&self) -> TransportView {
        match *self {
            RouteTransport::Tunnel(d) => TransportView::Tunnel(d@),
            RouteTransport::Direct(d) => TransportView::Direct(d@),
            RouteTransport::Proxy(p, t) => TransportView::Proxy(p@, t@),
        }
    }
}

impl View for RouteDecision {
    type V = DecisionView;

    open spec fn view(&self) -> DecisionView {
        DecisionView {
            note: text::shown(self.note),
            line: self.line@,
            path: self.path@,
            transport: self.transport@,
        }
    }
}

/// The host is an address.
pub open spec fn is_address(host: Seq<char>) -> bool {
    addr::ipv4_text(text::trimmed(host)) is Some || addr::ipv6_text(text::trimmed(host)) is Some
}

/// Whether the host is an address.
pub fn is_ip_host(host: &str) -> (r: bool)
    ensures
        r == is_address(host@),
{
    let cs = text::chars_of(host);
    let t = text::trim(cs.as_slice());
    addr::parse_ipv4(t).is_some() || addr::parse_ipv6(t).is_some()
}

/// A planned target as it is handed to a dialler.
pub open spec fn dial_of(target: Seq<char>) -> Seq<char> {
    match text::last_of(target, ':') {
        Some(i) => socks_wire::socket_target(target.take(i), target.skip(i + 1)),
        None => target,
    }
}

/// A planned target as it is handed to a dialler.
pub fn target_addr(target: &str) -> (r: String)
    ensures
        r@ == dial_of(target@),
{
    let cs = text::chars_of(target);
    match text::rfind(cs.as_slice(), ':') {
        Some(i) => {
            let host = text::text_of(text::take(cs.as_slice(), i));
            let port = text::text_of(text::behind(cs.as_slice(), i));
            socks_wire::format_socket_target(host.as_str(), port.as_str())
        },
        None => target.to_owned(),
    }
}

/// What stands in front of the last colon, or everything where there is none.
pub open spec fn host_part(dial: Seq<char>) -> Seq<char> {
    match text::last_of(dial, ':') {
        Some(i) => dial.take(i),
        None => dial,
    }
}

fn take_host(dial: &str) -> (r: String)
    ensures
        r@ == host_part(dial@),
{
    let cs = text::chars_of(dial);
    match text::rfind(cs.as_slice(), ':') {
        Some(i) => text::text_of(text::take(cs.as_slice(), i)),
        None => dial.to_owned(),
    }
}

/// What is said of a resolution: by a record, by a server or from the cache.
pub open spec fn source_note(
    host: Seq<char>,
    ip: Seq<char>,
    rc_id: i32,
    source: routing::RouteSourceView,
) -> Option<Seq<char>> {
    match source {
        routing::RouteSourceView::DnsDataIpRule => Some(
            "dns.data resolved "@ + host + " -> "@ + ip + " for rc_id="@ + text::decimal(
                rc_id as int,
            ),
        ),
        routing::RouteSourceView::DnsServerCache => Some(cache_note(host, ip, rc_id)),
        routing::RouteSourceView::CnameDnsServerCache => Some(cache_note(host, ip, rc_id)),
        routing::RouteSourceView::DnsServerIpRuleCache => Some(cache_note(host, ip, rc_id)),
        _ => match source.server() {
            Some(server) => Some(
                "dnsserver resolved "@ + host + " -> "@ + ip + " via "@ + server.text()
                    + " for rc_id="@ + text::decimal(rc_id as int),
            ),
            None => None,
        },
    }
}

/// What is said of a resolution from the cache.
pub open spec fn cache_note(host: Seq<char>, ip: Seq<char>, rc_id: i32) -> Seq<char> {
    "dns cache hit "@ + host + " -> "@ + ip + " for rc_id="@ + text::decimal(rc_id as int)
}

/// What is said of a resolution.
pub fn log_resolved_route_source(host: &str, resolved_ip: &str, rc_id: i32, source: RouteSource)
    -> (r: Option<String>)
    ensures
        text::shown(r) == source_note(host@, resolved_ip@, rc_id, source@),
{
    let id = text::decimal_i32(rc_id);
    match source {
        RouteSource::DnsDataIpRule => Some(
            "dns.data resolved ".to_owned().concat(host).concat(" -> ").concat(resolved_ip).concat(
                " for rc_id=",
            ).concat(id.as_str()),
        ),
        RouteSource::DnsServerQuery(server)
        | RouteSource::CnameDnsServerQuery(server)
        | RouteSource::DnsServerIpRuleQuery(server) => {
            let from = server.to_string();
            Some(
                "dnsserver resolved ".to_owned().concat(host).concat(" -> ").concat(
                    resolved_ip,
                ).concat(" via ").concat(from.as_str()).concat(" for rc_id=").concat(id.as_str()),
            )
        },
        RouteSource::DnsServerCache
        | RouteSource::CnameDnsServerCache
        | RouteSource::DnsServerIpRuleCache => Some(
            "dns cache hit ".to_owned().concat(host).concat(" -> ").concat(resolved_ip).concat(
                " for rc_id=",
            ).concat(id.as_str()),
        ),
        _ => None,
    }
}

/// The name of a resource as it is shown.
pub open spec fn shown_name(rc_name: Seq<char>) -> Seq<char> {
    if text::trimmed(rc_name).len() == 0 {
        "unknown"@
    } else {
        rc_name
    }
}

/// The decision for a target that goes through the tunnel.
pub open spec fn remote_decision(
    target: socks_wire::TargetView,
    dial: Seq<char>,
    rc_id: i32,
    rc_name: Seq<char>,
    source: routing::RouteSourceView,
) -> DecisionView {
    let name = shown_name(rc_name);
    DecisionView {
        note: source_note(target.host, host_part(dial), rc_id, source),
        line: if is_address(target.host) {
            target.text() + " -> "@ + RouteKind::Remote.text() + " -> "@ + name
        } else {
            target.text() + " -> "@ + RouteKind::Remote.text() + " -> "@ + name + "("@ + dial
                + ")"@
        },
        path: "remote -> "@ + name + "("@ + dial + "); source="@ + source.description(),
        transport: TransportView::Tunnel(dial),
    }
}

/// The decision for a target that goes round the tunnel.
pub open spec fn fallback_decision(
    target: socks_wire::TargetView,
    planned: Seq<char>,
    reason: Seq<char>,
    proxy: Option<socks_proxy::ProxyView>,
) -> DecisionView {
    match proxy {
        Some(p) => DecisionView {
            note: None,
            line: target.text() + " -> "@ + RouteKind::Fallback.text() + " -> "@ + p.url,
            path: "fallback -> "@ + p.url + "; reason: "@ + reason,
            transport: TransportView::Proxy(p, target),
        },
        None => DecisionView {
            note: None,
            line: target.text() + " -> "@ + RouteKind::Fallback.text() + " -> "@
                + RouteKind::Direct.text(),
            path: "fallback -> direct dial="@ + dial_of(planned) + "; reason: "@ + reason,
            transport: TransportView::Direct(dial_of(planned)),
        },
    }
}

/// The decision for a target that cannot be planned: it goes through the tunnel as it is.
pub open spec fn legacy_decision(target: socks_wire::TargetView, err: EcErrorView) -> DecisionView {
    let legacy = socks_wire::socket_target(target.host, text::decimal(target.port as int));
    DecisionView {
        note: None,
        line: target.text() + " -> "@ + RouteKind::Remote.text() + " -> legacy("@ + legacy + ")"@,
        path: "remote -> legacy("@ + legacy + ") planner-unavailable="@ + err.text(),
        transport: TransportView::Tunnel(legacy),
    }
}

/// How the connection to a target is carried, given what was planned for it.
pub open spec fn decision_of(
    target: socks_wire::TargetView,
    plan: Result<routing::PlanView, EcErrorView>,
    proxy: Option<socks_proxy::ProxyView>,
) -> DecisionView {
    match plan {
        Ok(routing::PlanView::Remote { dial, rc_id, rc_name, source }) => remote_decision(
            target,
            dial,
            rc_id,
            rc_name,
            source,
        ),
        Ok(routing::PlanView::Fallback { target: planned, reason, .. }) => fallback_decision(
            target,
            planned,
            reason,
            proxy,
        ),
        Err(e) => legacy_decision(target, e),
    }
}

fn route_decision_remote(
    target: &ConnectTarget,
    dial: String,
    rc_id: i32,
    rc_name: String,
    source: RouteSource,
) -> (r: RouteDecision)
    ensures
        r@ == remote_decision(target@, dial@, rc_id, rc_name@, source@),
{
    let resolved_ip = take_host(dial.as_str());
    let note = log_resolved_route_source(target.host(), resolved_ip.as_str(), rc_id, source);
    let name_chars = text::chars_of(rc_name.as_str());
    let name_trimmed = text::trim(name_chars.as_slice());
    let name = if name_trimmed.len() == 0 {
        "unknown".to_owned()
    } else {
        rc_name
    };
    let head = target.to_string().concat(" -> ").concat(RouteKind::Remote.label()).concat(
        " -> ",
    ).concat(name.as_str());
    let line = if is_ip_host(target.host()) {
        head
    } else {
        head.concat("(").concat(dial.as_str()).concat(")")
    };
    let described = source.describe();
    let path = "remote -> ".to_owned().concat(name.as_str()).concat("(").concat(
        dial.as_str(),
    ).concat("); source=").concat(described.as_str());
    RouteDecision { note, line, path, transport: RouteTransport::Tunnel(dial) }
}

fn same_proxy(p: &FallbackProxy) -> (r: FallbackProxy)
    ensures
        r@ == p@,
{
    FallbackProxy { url: p.url.clone(), addr: p.addr.clone(), kind: p.kind }
}

fn route_decision_fallback(
    target: &ConnectTarget,
    planned: String,
    reason: String,
    fallback_proxy: Option<&FallbackProxy>,
) -> (r: RouteDecision)
    ensures
        r@ == fallback_decision(target@, planned@, reason@, text::shown(fallback_proxy)),
{
    let head = target.to_string().concat(" -> ").concat(RouteKind::Fallback.label()).concat(
        " -> ",
    );
    match fallback_proxy {
        Some(p) => RouteDecision {
            note: None,
            line: head.concat(p.url.as_str()),
            path: "fallback -> ".to_owned().concat(p.url.as_str()).concat("; reason: ").concat(
                reason.as_str(),
            ),
            transport: RouteTransport::Proxy(same_proxy(p), target.duplicate()),
        },
        None => {
            let dial = target_addr(planned.as_str());
            RouteDecision {
                note: None,
                line: head.concat(RouteKind::Direct.label()),
                path: "fallback -> direct dial=".to_owned().concat(dial.as_str()).concat(
                    "; reason: ",
                ).concat(reason.as_str()),
                transport: RouteTransport::Direct(dial),
            }
        },
    }
}

fn route_decision_legacy(target: &ConnectTarget, err: EcError) -> (r: RouteDecision)
    ensures
        r@ == legacy_decision(target@, err@),
{
    let legacy = target.to_socket_target();
    let why = err.to_string();
    RouteDecision {
        note: None,
        line: target.to_string().concat(" -> ").concat(RouteKind::Remote.label()).concat(
            " -> legacy(",
        ).concat(legacy.as_str()).concat(")"),
        path: "remote -> legacy(".to_owned().concat(legacy.as_str()).concat(
            ") planner-unavailable=",
        ).concat(why.as_str()),
        transport: RouteTransport::Tunnel(legacy),
    }
}

/// How the connection to a target is carried, given what was planned for it.
pub fn decide_route(
    target: &ConnectTarget,
    plan: EcResult<RoutePlan>,
    fallback_proxy: Option<&FallbackProxy>,
) -> (r: RouteDecision)
    ensures
        r@ == decision_of(target@, error::shown(plan), text::shown(fallback_proxy)),
{
    match plan {
        Ok(RoutePlan::Remote { dial, rc_id, rc_name, source }) => route_decision_remote(
            target,
            dial,
            rc_id,
            rc_name,
            source,
        ),
        Ok(RoutePlan::Fallback { target: planned, reason, reserved_proto1: _ }) => {
            route_decision_fallback(target, planned, reason, fallback_proxy)
        },
        Err(e) => route_decision_legacy(target, e),
    }
}

/// The error of a connection that was decided on but failed.
pub fn route_runtime_error(target_display: &str, route_path: &str, cause: String) -> (r: EcError)
    ensures
        r@ == EcErrorView::Runtime(
            target_display@ + " -> "@ + route_path@ + "; failed: "@ + error::concise(cause@),
        ),
{
    let short = error::concise_message(cause);
    EcError::Runtime(
        target_display.to_owned().concat(" -> ").concat(route_path).concat("; failed: ").concat(
            short.as_str(),
        ),
    )
}

// ---------------------------------------------------------------------------
// Routes of datagrams
// ---------------------------------------------------------------------------

/// How a datagram is carried.
#[derive(Debug)]
pub enum UdpRouteTransport {
    /// Through the tunnel, to this address.
    Tunnel(SocketAddrV4),
    /// Not at all, for this reason.
    Unsupported(String),
}

/// How a datagram is carried, and what is said about it.
#[derive(Debug)]
pub struct UdpRouteDecision {
    pub note: Option<String>,
    pub line: String,
    pub path: String,
    pub transport: UdpRouteTransport,
}

/// A decision, or the address that has to be resolved first.
#[derive(Debug)]
pub enum UdpRouteStep {
    /// Resolve `dial` to an IPv4 address, and report what came of it.
    Resolve { note: Option<String>, line: String, path: String, dial: String },
    /// Everything is decided.
    Done(UdpRouteDecision),
}

/// A transport as plain values.
#[verifier::ext_equal]
pub ghost enum UdpTransportView {
    Tunnel(SocketAddrV4),
    Unsupported(Seq<char>),
}

/// A decision as plain values.
#[verifier::ext_equal]
pub ghost struct UdpDecisionView {
    pub note: Option<Seq<char>>,
    pub line: Seq<char>,
    pub path: Seq<char>,
    pub transport: UdpTransportView,
}

/// A step as plain values.
#[verifier::ext_equal]
pub ghost enum UdpStepView {
    Resolve { note: Option<Seq<char>>, line: Seq<char>, path: Seq<char>, dial: Seq<char> },
    Done(UdpDecisionView),
}

impl View for UdpRouteDecision {
    type V = UdpDecisionView;

    open spec fn view(&self) -> UdpDecisionView {
        UdpDecisionView {
            note: text::shown(self.note),
            line: self.line@,
            path: self.path@,
            transport: match self.transport {
                UdpRouteTransport::Tunnel(a) => UdpTransportView::Tunnel(a),
                UdpRouteTransport::Unsupported(m) => UdpTransportView::Unsupported(m@),
            },
        }
    }
}

impl View for UdpRouteStep {
    type V = UdpStepView;

    open spec fn view(&self) -> UdpStepView {
        match *self {
            UdpRouteStep::Resolve { note, line, path, dial } => UdpStepView::Resolve {
                note: text::shown(note),
                line: line@,
                path: path@,
                dial: dial@,
            },
            UdpRouteStep::Done(d) => UdpStepView::Done(d@),
        }
    }
}

/// How a datagram is carried, given what was planned for its target. Only the tunnel carries
/// datagrams.
pub open spec fn udp_decision(
    target: socks_wire::TargetView,
    plan: Result<routing::PlanView, EcErrorView>,
    proxy: Option<socks_proxy::ProxyView>,
) -> UdpStepView {
    match plan {
        Ok(routing::PlanView::Remote { dial, rc_id, rc_name, source }) => {
            let d = remote_decision(target, dial, rc_id, rc_name, source);
            UdpStepView::Resolve { note: d.note, line: d.line, path: d.path, dial }
        },
        Ok(routing::PlanView::Fallback { target: planned, reason, .. }) => {
            let d = fallback_decision(target, planned, reason, proxy);
            UdpStepView::Done(
                UdpDecisionView {
                    note: d.note,
                    line: d.line,
                    path: d.path,
                    transport: UdpTransportView::Unsupported(
                        "udp fallback transport is not supported yet"@,
                    ),
                },
            )
        },
        Err(e) => UdpStepView::Done(
            UdpDecisionView {
                note: None,
                line: target.text() + " -> "@ + RouteKind::Remote.text() + " -> legacy"@,
                path: "remote -> legacy planner-unavailable="@ + e.text(),
                transport: UdpTransportView::Unsupported("udp legacy route is not supported"@),
            },
        ),
    }
}

/// How a datagram is carried, given what was planned for its target.
pub fn decide_udp_route(
    target: &ConnectTarget,
    plan: EcResult<RoutePlan>,
    fallback_proxy: Option<&FallbackProxy>,
) -> (r: UdpRouteStep)
    ensures
        r@ == udp_decision(target@, error::shown(plan), text::shown(fallback_proxy)),
{
    match plan {
        Ok(RoutePlan::Remote { dial, rc_id, rc_name, source }) => {
            let d = route_decision_remote(target, dial.clone(), rc_id, rc_name, source);
            UdpRouteStep::Resolve { note: d.note, line: d.line, path: d.path, dial }
        },
        Ok(RoutePlan::Fallback { target: planned, reason, reserved_proto1: _ }) => {
            let d = route_decision_fallback(target, planned, reason, fallback_proxy);
            UdpRouteStep::Done(
                UdpRouteDecision {
                    note: d.note,
                    line: d.line,
                    path: d.path,
                    transport: UdpRouteTransport::Unsupported(
                        "udp fallback transport is not supported yet".to_owned(),
                    ),
                },
            )
        },
        Err(e) => {
            let why = e.to_string();
            UdpRouteStep::Done(
                UdpRouteDecision {
                    note: None,
                    line: target.to_string().concat(" -> ").concat(
                        RouteKind::Remote.label(),
                    ).concat(" -> legacy"),
                    path: "remote -> legacy planner-unavailable=".to_owned().concat(why.as_str()),
                    transport: UdpRouteTransport::Unsupported(
                        "udp legacy route is not supported".to_owned(),
                    ),
                },
            )
        },
    }
}

/// The transport once the address to dial has been resolved, or could not be.
pub open spec fn udp_transport(resolved: Result<SocketAddrV4, EcErrorView>) -> UdpTransportView {
    match resolved {
        Ok(a) => UdpTransportView::Tunnel(a),
        Err(e) => UdpTransportView::Unsupported(
            "udp remote target is not ipv4: "@ + error::concise(e.text()),
        ),
    }
}

/// A resolved address as plain values.
pub open spec fn resolved_view(r: EcResult<SocketAddrV4>) -> Result<SocketAddrV4, EcErrorView> {
    match r {
        Ok(a) => Ok(a),
        Err(e) => Err(e@),
    }
}

/// The decision once the address to dial has been resolved, or could not be.
pub fn finish_udp_route(
    note: Option<String>,
    line: String,
    path: String,
    resolved: EcResult<SocketAddrV4>,
) -> (r: UdpRouteDecision)
    ensures
        r@ == (UdpDecisionView {
            note: text::shown(note),
            line: line@,
            path: path@,
            transport: udp_transport(resolved_view(resolved)),
        }),
{
    let transport = match resolved {
        Ok(a) => UdpRouteTransport::Tunnel(a),
        Err(e) => {
            let why = error::concise_error(&e);
            UdpRouteTransport::Unsupported(
                "udp remote target is not ipv4: ".to_owned().concat(why.as_str()),
            )
        },
    };
    UdpRouteDecision { note, line, path, transport }
}

/// The first IPv4 address among those that a target resolved to.
pub open spec fn first_v4(addrs: Seq<SocketAddrView>) -> Option<SocketAddrV4>
    decreases addrs.len(),
{
    if addrs.len() == 0 {
        None
    } else {
        match addrs[0] {
            SocketAddrView::V4 { ip, port } => Some(SocketAddrV4 { ip, port }),
            SocketAddrView::V6 { .. } => first_v4(addrs.skip(1)),
        }
    }
}

/// The first IPv4 address among those that a target resolved to.
pub fn pick_v4(list: &Vec<SocketAddr>) -> (r: Option<SocketAddrV4>)
    ensures
        r == first_v4(text::views(list@)),
{
    let ghost all = text::views(list@);
    assert(all.skip(0) == all);
    for i in 0..list.len()
        invariant
            all == text::views(list@),
            first_v4(all) == first_v4(all.skip(i as int)),
    {
        assert(all.skip(i as int).skip(1) == all.skip(i + 1));
        assert(all.skip(i as int)[0] == list@[i as int]@);
        match list[i] {
            SocketAddr::V4 { ip, port } => {
                return Some(SocketAddrV4 { ip, port });
            },
            SocketAddr::V6 { .. } => {},
        }
    }
    None
}

/// The first IPv4 address among those that a target resolved to; the lookup itself may have
/// failed, in the given words.
pub fn resolve_dial_v4_from_str(target: &str, addrs: Result<Vec<SocketAddr>, String>) -> (r:
    EcResult<SocketAddrV4>)
    ensures
        match addrs {
            Err(m) => r matches Err(e) && e@ == EcErrorView::Runtime(
                "resolve udp target failed: "@ + target@ + ": "@ + m@,
            ),
            Ok(list) => match first_v4(text::views(list@)) {
                Some(a) => r == Ok::<SocketAddrV4, EcError>(a),
                None => r matches Err(e) && e@ == EcErrorView::Runtime(
                    "no ipv4 address resolved for udp target "@ + target@,
                ),
            },
        },
{
    match addrs {
        Err(m) => Err(
            EcError::Runtime(
                "resolve udp target failed: ".to_owned().concat(target).concat(": ").concat(
                    m.as_str(),
                ),
            ),
        ),
        Ok(list) => {
            match pick_v4(&list) {
                Some(a) => Ok(a),
                None => Err(
                    EcError::Runtime(
                        "no ipv4 address resolved for udp target ".to_owned().concat(target),
                    ),
                ),
            }
        },
    }
}

// ---------------------------------------------------------------------------
// The datagram relay
// ---------------------------------------------------------------------------

/// Where the relay of a client listens, given its control connection.
pub open spec fn relay_bind(control: SocketAddrView) -> Option<SocketAddrV4> {
    match control {
        SocketAddrView::V4 { ip, .. } => Some(SocketAddrV4 { ip, port: 0 }),
        SocketAddrView::V6 { .. } => None,
    }
}

/// The address that a client is told to send its datagrams to, given where its relay listens.
pub open spec fn relay_reply(relay: SocketAddrView) -> Option<SocketAddrV4> {
    match relay {
        SocketAddrView::V4 { ip, port } => Some(SocketAddrV4 { ip, port }),
        SocketAddrView::V6 { .. } => None,
    }
}

/// Where the relay of a client listens: on the address of its control connection, on any
/// port.
pub fn udp_relay_bind_addr(control: SocketAddr) -> (r: EcResult<SocketAddrV4>)
    ensures
        match control@ {
            SocketAddrView::V4 { ip, .. } => r == Ok::<SocketAddrV4, EcError>(
                SocketAddrV4 { ip, port: 0 },
            ),
            SocketAddrView::V6 { .. } => r matches Err(e) && e@ == EcErrorView::Runtime(
                "udp associate over ipv6 control connection is not supported"@,
            ),
        },
        r matches Ok(a) ==> relay_bind(control@) == Some(a),
        r is Err ==> relay_bind(control@) is None,
{
    match control {
        SocketAddr::V4 { ip, port: _ } => Ok(SocketAddrV4 { ip, port: 0 }),
        SocketAddr::V6 { .. } => Err(
            EcError::Runtime(
                "udp associate over ipv6 control connection is not supported".to_owned(),
            ),
        ),
    }
}

/// What to do once the relay of a client listens.
#[derive(Debug)]
pub enum AssociateStep {
    /// Reply with this address, say the line, and relay.
    Relay { bound: SocketAddrV4, line: String },
    /// Reply with the given code, and give up.
    Refuse { reply: u8, error: EcError },
}

/// What to do once the relay of a client listens on the given address.
pub fn handle_udp_associate(relay: SocketAddr) -> (r: AssociateStep)
    ensures
        match relay@ {
            SocketAddrView::V4 { ip, port } => {
                &&& r matches AssociateStep::Relay { bound, line }
                &&& bound == (SocketAddrV4 { ip, port })
                &&& line@ == "UDP ASSOCIATE -> "@ + bound.text()
            },
            SocketAddrView::V6 { .. } => {
                &&& r matches AssociateStep::Refuse { reply, error }
                &&& reply == SOCKS_REP_GENERAL_FAILURE
                &&& error@ == EcErrorView::Runtime("udp relay only supports ipv4 bind address"@)
            },
        },
        r matches AssociateStep::Relay { bound, .. } ==> relay_reply(relay@) == Some(bound),
        r is Refuse ==> relay_reply(relay@) is None,
{
    match relay {
        SocketAddr::V4 { ip, port } => {
            let bound = SocketAddrV4 { ip, port };
            let shown = bound.to_string();
            AssociateStep::Relay {
                bound,
                line: "UDP ASSOCIATE -> ".to_owned().concat(shown.as_str()),
            }
        },
        SocketAddr::V6 { .. } => AssociateStep::Refuse {
            reply: SOCKS_REP_GENERAL_FAILURE,
            error: EcError::Runtime("udp relay only supports ipv4 bind address".to_owned()),
        },
    }
}

/// Whether a datagram is from the client; the first sender becomes the client.
pub fn remember_udp_client(client: &mut Option<SocketAddr>, peer: SocketAddr) -> (r: bool)
    ensures
        match *old(client) {
            Some(known) => r == (known@ == peer@) && *final(client) == *old(client),
            None => r && *final(client) == Some(peer),
        },
{
    match *client {
        Some(known) => known.same(&peer),
        None => {
            *client = Some(peer);
            true
        },
    }
}

/// What to do with a datagram that came to the relay.
#[derive(Debug)]
pub enum RelayStep {
    /// The control connection is gone: stop.
    Stop,
    /// Nothing to do.
    Ignore,
    /// Drop it, with a warning.
    Drop(String),
    /// Find a route for it.
    Route(SocksUdpPacket),
}

/// What a datagram that came to the relay means.
pub open spec fn relay_step(
    stopped: bool,
    data: Seq<u8>,
    peer: SocketAddrView,
    client: Option<SocketAddrView>,
    r: RelayStep,
) -> bool {
    if stopped {
        r is Stop
    } else if data.len() == 0 {
        r is Ignore
    } else if client is Some && client != Some(peer) {
        r matches RelayStep::Drop(m) && m@ == "drop udp packet from unexpected peer "@
            + peer.text()
    } else {
        match socks_wire::packet_of(data) {
            Ok(p) => r matches RelayStep::Route(got) && got@ == p,
            Err(e) => r matches RelayStep::Drop(m) && m@ == "drop invalid udp packet: "@
                + error::concise(e.text()),
        }
    }
}

/// The client of a relay after a datagram: the first sender of one that is not empty.
pub open spec fn client_after(
    stopped: bool,
    data: Seq<u8>,
    peer: SocketAddrView,
    client: Option<SocketAddrView>,
) -> Option<SocketAddrView> {
    if !stopped && data.len() > 0 && client is None {
        Some(peer)
    } else {
        client
    }
}

/// Takes a datagram that came to the relay. Only the client is served, and the first sender
/// becomes the client.
pub fn run_udp_relay(
    stopped: bool,
    data: &[u8],
    peer: SocketAddr,
    client: &mut Option<SocketAddr>,
) -> (r: RelayStep)
    ensures
        relay_step(stopped, data@, peer@, text::shown(*old(client)), r),
        *final(client) == if !stopped && data@.len() > 0 && *old(client) is None {
            Some(peer)
        } else {
            *old(client)
        },
        text::shown(*final(client)) == client_after(
            stopped,
            data@,
            peer@,
            text::shown(*old(client)),
        ),
{
    if stopped {
        return RelayStep::Stop;
    }
    if data.len() == 0 {
        return RelayStep::Ignore;
    }
    if !remember_udp_client(client, peer) {
        let shown = peer.to_string();
        return RelayStep::Drop(
            "drop udp packet from unexpected peer ".to_owned().concat(shown.as_str()),
        );
    }
    match socks_wire::parse_socks_udp_packet(data) {
        Ok(packet) => RelayStep::Route(packet),
        Err(e) => {
            let why = error::concise_error(&e);
            RelayStep::Drop("drop invalid udp packet: ".to_owned().concat(why.as_str()))
        },
    }
}

/// What is said of a datagram that could not be sent.
pub fn udp_send_failed(path: &str, reason: String) -> (r: String)
    ensures
        r@ == path@ + "; failed: "@ + error::concise(reason@),
{
    let short = error::concise_message(reason);
    path.to_owned().concat("; failed: ").concat(short.as_str())
}

/// What is said of a datagram that is not carried.
pub fn udp_unsupported(path: &str, reason: &str) -> (r: String)
    ensures
        r@ == path@ + "; failed: "@ + reason@,
{
    path.to_owned().concat("; failed: ").concat(reason)
}

/// The datagram to hand to the client for one that came through the tunnel; nothing, as long
/// as there is no client.
pub fn forward_udp_from_tunnel(client: Option<SocketAddr>, source: SocketAddrV4, data: &[u8]) -> (r:
    Option<(SocketAddr, Vec<u8>)>)
    ensures
        match client {
            Some(peer) => r matches Some((to, packet)) && to == peer && packet@
                == socks_wire::packet_bytes(source, data@),
            None => r is None,
        },
{
    match client {
        Some(peer) => Some((peer, socks_wire::encode_socks_udp_packet(source, data))),
        None => None,
    }
}

// ---------------------------------------------------------------------------
// The connection relay
// ---------------------------------------------------------------------------

/// What to do with what was read from one side of a connection.
#[derive(Debug)]
pub enum PumpStep {
    /// Hand these bytes to the other side.
    Send(Vec<u8>),
    /// Close the other side, and stop.
    Close,
}

/// What to do with what was read from one side of a connection. The end of the stream, a
/// timeout and a failure all end the relay.
pub fn relay_read(read: ReadOutcome) -> (r: PumpStep)
    ensures
        match read {
            ReadOutcome::Data(bytes) => r == PumpStep::Send(bytes),
            _ => r is Close,
        },
{
    match read {
        ReadOutcome::Data(bytes) => PumpStep::Send(bytes),
        _ => PumpStep::Close,
    }
}

// ---------------------------------------------------------------------------
// Laws
// ---------------------------------------------------------------------------

/// What goes round the tunnel never goes through it: with a proxy it goes to the proxy,
/// without one it goes directly.
pub proof fn law_fallback_is_not_tunnelled(
    target: socks_wire::TargetView,
    planned: Seq<char>,
    reason: Seq<char>,
    reserved_proto1: bool,
    proxy: Option<socks_proxy::ProxyView>,
)
    ensures
        ({
            let plan = Ok::<routing::PlanView, EcErrorView>(
                routing::PlanView::Fallback { target: planned, reason, reserved_proto1 },
            );
            let d = decision_of(target, plan, proxy);
            &&& proxy matches Some(p) ==> d.transport == TransportView::Proxy(p, target)
            &&& proxy is None ==> d.transport is Direct
            &&& udp_decision(target, plan, proxy) matches UdpStepView::Done(u)
            &&& u.transport is Unsupported
        }),
{
}

/// A remote plan goes through the tunnel to the planned address, whether a proxy is set or
/// not.
pub proof fn law_remote_is_tunnelled(
    target: socks_wire::TargetView,
    dial: Seq<char>,
    rc_id: i32,
    rc_name: Seq<char>,
    source: routing::RouteSourceView,
    proxy: Option<socks_proxy::ProxyView>,
)
    ensures
        decision_of(
            target,
            Ok::<routing::PlanView, EcErrorView>(
                routing::PlanView::Remote { dial, rc_id, rc_name, source },
            ),
            proxy,
        ).transport == TransportView::Tunnel(dial),
{
}

/// Once a relay has a client, nobody else's datagrams are routed.
pub proof fn law_relay_serves_one_client(
    data: Seq<u8>,
    client: SocketAddrView,
    peer: SocketAddrView,
    stopped: bool,
    r: RelayStep,
)
    requires
        peer != client,
        relay_step(stopped, data, peer, Some(client), r),
    ensures
        !(r is Route),
{
}

/// A port alone is listened on at every interface; any other address is taken as it is.
pub proof fn law_a_port_alone_means_every_interface(bind: Seq<char>)
    ensures
        bind_of(":"@ + bind) == "0.0.0.0:"@ + bind,
        bind.len() == 0 || bind[0] != ':' ==> bind_of(bind) == bind,
{
    reveal_strlit(":");
    reveal_strlit("0.0.0.0");
    reveal_strlit("0.0.0.0:");
    assert("0.0.0.0"@ + (":"@ + bind) =~= "0.0.0.0:"@ + bind);
    assert((":"@ + bind)[0] == ':');
}

proof fn lemma_first_v4(addrs: Seq<SocketAddrView>, k: int)
    requires
        0 <= k <= addrs.len(),
        forall|j: int| 0 <= j < k ==> (#[trigger] addrs[j]) is V6,
        k < addrs.len() ==> addrs[k] is V4,
    ensures
        k < addrs.len() ==> first_v4(addrs) == Some(
            SocketAddrV4 { ip: addrs[k]->V4_ip, port: addrs[k]->V4_port },
        ),
        k == addrs.len() ==> first_v4(addrs) is None,
    decreases k,
{
    if k > 0 {
        assert(addrs[0] is V6);
        assert forall|j: int| 0 <= j < k - 1 implies (#[trigger] addrs.skip(1)[j]) is V6 by {
            assert(addrs.skip(1)[j] == addrs[j + 1]);
        }
        lemma_first_v4(addrs.skip(1), k - 1);
    }
}

/// Of the addresses of a target the first IPv4 one counts, with its port, wherever it stands;
/// there is none only if all of them are IPv6.
pub proof fn law_first_ipv4_address_counts(addrs: Seq<SocketAddrView>, k: int)
    requires
        0 <= k <= addrs.len(),
        forall|j: int| 0 <= j < k ==> (#[trigger] addrs[j]) is V6,
        k < addrs.len() ==> addrs[k] is V4,
    ensures
        k < addrs.len() ==> (first_v4(addrs) matches Some(a) && addrs[k] == (SocketAddrView::V4 {
            ip: a.ip,
            port: a.port,
        })),
        k == addrs.len() ==> first_v4(addrs) is None,
{
    lemma_first_v4(addrs, k);
}

/// A target that goes round the tunnel without a proxy is dialled at the host and port that the
/// client asked for: an address in a form that is read back as it, any other host as it is.
#[verifier::rlimit(40)]
pub proof fn law_direct_targets_are_dialled(
    ip: addr::Ipv4Addr,
    groups: Seq<u16>,
    host: Seq<char>,
    port: u16,
)
    requires
        groups.len() == 8,
        addr::ipv6_text(host) is None,
        host.len() > 0 ==> !text::is_white(host[0]) && !text::is_white(host.last()),
    ensures
        addr::socket_text(dial_of(routing::with_port(ip.text(), port))) == Some(
            SocketAddrView::V4 { ip, port },
        ),
        addr::socket_text(dial_of(routing::with_port(addr::ipv6_display(groups), port))) == Some(
            SocketAddrView::V6 { groups, port, flow: 0, scope: 0 },
        ),
        dial_of(host + ":"@ + text::decimal(port as int)) == host + ":"@ + text::decimal(
            port as int,
        ),
{
    socks_wire::law_targets_can_be_dialled(ip, groups, port, host);
    lemma_port_comes_off(ip.text(), port);
    lemma_port_comes_off(addr::ipv6_display(groups), port);
    lemma_port_comes_off(host, port);
}

proof fn lemma_port_comes_off(host: Seq<char>, port: u16)
    ensures
        ({
            let s = host + ":"@ + text::decimal(port as int);
            &&& text::last_of(s, ':') == Some(host.len() as int)
            &&& s.take(host.len() as int) == host
            &&& s.skip(host.len() as int + 1) == text::decimal(port as int)
        }),
{
    reveal_strlit(":");
    let d = text::decimal(port as int);
    let s = host + ":"@ + d;
    text::lemma_digits_lack(port as nat, 10, ':');
    text::law_characters_are_found(host, ':', d);
    assert(s =~= host.push(':') + d);
    assert(s.take(host.len() as int) =~= host);
    assert(s.skip(host.len() as int + 1) =~= d);
}

/// A target that cannot be planned goes through the tunnel to where the client wants, with or
/// without a proxy; its datagrams are not carried.
#[verifier::rlimit(40)]
pub proof fn law_unplanned_targets_are_tunnelled(
    ip: addr::Ipv4Addr,
    port: u16,
    e: EcErrorView,
    proxy: Option<socks_proxy::ProxyView>,
)
    ensures
        ({
            let target = socks_wire::TargetView { host: ip.text(), port };
            &&& decision_of(target, Err(e), proxy).transport matches TransportView::Tunnel(dial)
                && addr::socket_text(dial) == Some(SocketAddrView::V4 { ip, port })
            &&& udp_decision(target, Err(e), proxy) matches UdpStepView::Done(d)
                && d.transport is Unsupported
        }),
{
    let groups = Seq::new(8, |i: int| 0u16);
    let none = Seq::<char>::empty();
    addr::lemma_nothing_is_no_ipv6(none);
    socks_wire::law_targets_can_be_dialled(ip, groups, port, none);
}

/// Datagrams for a target that is planned through the tunnel go to the address that the planned
/// one resolves to, and are dropped if it does not resolve.
pub proof fn law_datagrams_follow_the_plan(
    target: socks_wire::TargetView,
    dial: Seq<char>,
    rc_id: i32,
    rc_name: Seq<char>,
    source: routing::RouteSourceView,
    proxy: Option<socks_proxy::ProxyView>,
    to: SocketAddrV4,
    e: EcErrorView,
)
    ensures
        udp_decision(
            target,
            Ok::<routing::PlanView, EcErrorView>(
                routing::PlanView::Remote { dial, rc_id, rc_name, source },
            ),
            proxy,
        ) matches UdpStepView::Resolve { dial: asked, .. } && asked == dial,
        udp_transport(Ok(to)) == UdpTransportView::Tunnel(to),
        udp_transport(Err(e)) is Unsupported,
{
}

/// A connection is spoken of by its target, the way it takes and where it leads; a name is
/// spoken of together with the address it was resolved to.
#[verifier::rlimit(40)]
pub proof fn law_connections_are_spoken_of(
    target: socks_wire::TargetView,
    dial: Seq<char>,
    rc_id: i32,
    rc_name: Seq<char>,
    source: routing::RouteSourceView,
    reason: Seq<char>,
    proxy: socks_proxy::ProxyView,
)
    requires
        text::trimmed(rc_name).len() > 0,
    ensures
        ({
            let who = target.host + ":"@ + text::decimal(target.port as int);
            let remote = remote_decision(target, dial, rc_id, rc_name, source);
            let named = addr::ipv4_text(text::trimmed(target.host)) is None && addr::ipv6_text(
                text::trimmed(target.host),
            ) is None;
            &&& named ==> remote.line == who + " -> remote -> "@ + rc_name + "("@ + dial + ")"@
            &&& !named ==> remote.line == who + " -> remote -> "@ + rc_name
            &&& fallback_decision(target, dial, reason, Some(proxy)).line == who
                + " -> fallback -> "@ + proxy.url
            &&& fallback_decision(target, dial, reason, None).line == who
                + " -> fallback -> direct"@
        }),
{
    reveal_strlit(" -> ");
    reveal_strlit("remote");
    reveal_strlit("fallback");
    reveal_strlit("direct");
    reveal_strlit(" -> remote -> ");
    reveal_strlit(" -> fallback -> ");
    reveal_strlit(" -> fallback -> direct");
    let who = target.text();
    assert(who + " -> "@ + "remote"@ + " -> "@ + rc_name =~= who + " -> remote -> "@ + rc_name);
    assert(who + " -> "@ + "remote"@ + " -> "@ + rc_name + "("@ + dial + ")"@ =~= who
        + " -> remote -> "@ + rc_name + "("@ + dial + ")"@);
    assert(who + " -> "@ + "fallback"@ + " -> "@ + proxy.url =~= who + " -> fallback -> "@
        + proxy.url);
    assert(who + " -> "@ + "fallback"@ + " -> "@ + "direct"@ =~= who + " -> fallback -> direct"@);
}

/// A resolution is spoken of if a server or the cache gave the address, with the host, the
/// address and the resource; a rule, a record of the table and an extra entry go without
/// saying.
#[verifier::rlimit(40)]
pub proof fn law_resolutions_are_spoken_of(
    host: Seq<char>,
    ip: Seq<char>,
    rc_id: i32,
    server: SocketAddrView,
)
    ensures
        ({
            let pair = host + " -> "@ + ip;
            let end = " for rc_id="@ + text::decimal(rc_id as int);
            &&& source_note(host, ip, rc_id, routing::RouteSourceView::DnsServerQuery(server))
                == Some("dnsserver resolved "@ + pair + " via "@ + server.text() + end)
            &&& source_note(host, ip, rc_id, routing::RouteSourceView::DnsServerCache) == Some(
                "dns cache hit "@ + pair + end,
            )
            &&& source_note(host, ip, rc_id, routing::RouteSourceView::RuleIp) is None
            &&& source_note(host, ip, rc_id, routing::RouteSourceView::DnsMap) is None
            &&& source_note(host, ip, rc_id, routing::RouteSourceView::ExtraIp) is None
            &&& source_note(host, ip, rc_id, routing::RouteSourceView::RouteTableUnavailable)
                is None
        }),
{
    let pair = host + " -> "@ + ip;
    let end = " for rc_id="@ + text::decimal(rc_id as int);
    assert("dnsserver resolved "@ + host + " -> "@ + ip + " via "@ + server.text() + " for rc_id="@
        + text::decimal(rc_id as int) =~= "dnsserver resolved "@ + pair + " via "@ + server.text()
        + end);
    assert("dns cache hit "@ + host + " -> "@ + ip + " for rc_id="@ + text::decimal(rc_id as int)
        =~= "dns cache hit "@ + pair + end);
}

/// The relay routes every datagram of its client that can be read, as it reads, and no other;
/// the first sender of anything becomes the client, and stays it.
pub proof fn law_relay_routes_its_client(
    data: Seq<u8>,
    peer: SocketAddrView,
    client: Option<SocketAddrView>,
    r: RelayStep,
)
    requires
        relay_step(false, data, peer, client, r),
    ensures
        r is Route <==> data.len() > 0 && (client is None || client == Some(peer))
            && socks_wire::packet_of(data) is Ok,
        r matches RelayStep::Route(p) ==> socks_wire::packet_of(data) == Ok::<
            socks_wire::PacketView,
            EcErrorView,
        >(p@),
        !(r is Stop),
        data.len() == 0 <==> r is Ignore,
{
}

/// The client of a relay after several datagrams, each with its sender.
pub open spec fn client_after_all(
    client: Option<SocketAddrView>,
    datagrams: Seq<(Seq<u8>, SocketAddrView)>,
) -> Option<SocketAddrView>
    decreases datagrams.len(),
{
    if datagrams.len() == 0 {
        client
    } else {
        client_after(
            false,
            datagrams.last().0,
            datagrams.last().1,
            client_after_all(client, datagrams.drop_last()),
        )
    }
}

/// However many datagrams come, the client of a relay is the sender of the first of them that
/// is not empty, and a relay that has a client keeps it.
pub proof fn law_first_sender_is_the_client(
    client: Option<SocketAddrView>,
    datagrams: Seq<(Seq<u8>, SocketAddrView)>,
    k: int,
)
    requires
        0 <= k <= datagrams.len(),
        forall|j: int| 0 <= j < k ==> (#[trigger] datagrams[j]).0.len() == 0,
        k < datagrams.len() ==> datagrams[k].0.len() > 0,
    ensures
        client is Some ==> client_after_all(client, datagrams) == client,
        client is None && k < datagrams.len() ==> client_after_all(client, datagrams) == Some(
            datagrams[k].1,
        ),
        client is None && k == datagrams.len() ==> client_after_all(client, datagrams) is None,
    decreases datagrams.len(),
{
    if datagrams.len() > 0 {
        let rest = datagrams.drop_last();
        let n = datagrams.len() - 1;
        assert(datagrams.last() == datagrams[n]);
        assert forall|j: int| 0 <= j < k && j < rest.len() implies (#[trigger] rest[j]).0.len()
            == 0 by {
            assert(rest[j] == datagrams[j]);
        }
        if k < rest.len() {
            assert(rest[k] == datagrams[k]);
            law_first_sender_is_the_client(client, rest, k);
        } else {
            law_first_sender_is_the_client(client, rest, rest.len() as int);
        }
    }
}

/// A plan round the tunnel, and no proxy to take it, leads directly to the host and port of the
/// plan: to an address in a form that is read back as it, and to any other host as it is.
#[verifier::rlimit(40)]
pub proof fn law_direct_connections_go_to_the_target(
    target: socks_wire::TargetView,
    ip: addr::Ipv4Addr,
    groups: Seq<u16>,
    host: Seq<char>,
    port: u16,
    reason: Seq<char>,
    reserved_proto1: bool,
)
    requires
        groups.len() == 8,
        addr::ipv6_text(host) is None,
        host.len() > 0 ==> !text::is_white(host[0]) && !text::is_white(host.last()),
    ensures
        ({
            let p = text::decimal(port as int);
            let way = |planned: Seq<char>|
                decision_of(
                    target,
                    Ok::<routing::PlanView, EcErrorView>(
                        routing::PlanView::Fallback { target: planned, reason, reserved_proto1 },
                    ),
                    None,
                ).transport;
            &&& way(host + ":"@ + p) == TransportView::Direct(host + ":"@ + p)
            &&& way(ip.text() + ":"@ + p) matches TransportView::Direct(a)
            &&& addr::socket_text(a) == Some(SocketAddrView::V4 { ip, port })
            &&& way(addr::ipv6_display(groups) + ":"@ + p) matches TransportView::Direct(b)
            &&& addr::socket_text(b) == Some(
                SocketAddrView::V6 { groups, port, flow: 0, scope: 0 },
            )
        }),
{
    law_direct_targets_are_dialled(ip, groups, host, port);
}

/// A target that cannot be planned goes through the tunnel under its own name as well.
pub proof fn law_unplanned_names_are_tunnelled(
    host: Seq<char>,
    port: u16,
    e: EcErrorView,
    proxy: Option<socks_proxy::ProxyView>,
)
    requires
        addr::ipv6_text(host) is None,
        host.len() > 0 ==> !text::is_white(host[0]) && !text::is_white(host.last()),
    ensures
        decision_of(socks_wire::TargetView { host, port }, Err(e), proxy).transport
            == TransportView::Tunnel(host + ":"@ + text::decimal(port as int)),
{
    text::lemma_trimmed_already(host);
}

/// What is said of a connection that fails names its way, where it led and why: the resource and
/// the address with the source of the address, or the proxy, or the address dialled, each with
/// the reason for going round the tunnel. What is said of a resolution names the address alone,
/// without its port.
#[verifier::rlimit(40)]
pub proof fn law_failures_name_the_way(
    target: socks_wire::TargetView,
    ip: addr::Ipv4Addr,
    port: u16,
    rc_id: i32,
    rc_name: Seq<char>,
    source: routing::RouteSourceView,
    planned: Seq<char>,
    reason: Seq<char>,
    proxy: socks_proxy::ProxyView,
)
    ensures
        ({
            let dial = ip.text() + ":"@ + text::decimal(port as int);
            let remote = remote_decision(target, dial, rc_id, rc_name, source);
            let name = if text::trimmed(rc_name).len() > 0 {
                rc_name
            } else {
                "unknown"@
            };
            &&& remote.path == "remote -> "@ + name + "("@ + dial + "); source="@
                + source.description()
            &&& remote.note == source_note(target.host, ip.text(), rc_id, source)
            &&& fallback_decision(target, planned, reason, Some(proxy)).path == "fallback -> "@
                + proxy.url + "; reason: "@ + reason
            &&& fallback_decision(target, planned, reason, None).path
                == "fallback -> direct dial="@ + dial_of(planned) + "; reason: "@ + reason
        }),
{
    lemma_port_comes_off(ip.text(), port);
}

/// The datagrams of a client are taken on the address by which it reached the server, at a port
/// of their own, and the client is told exactly where; over IPv6 there is no relay.
pub proof fn law_relay_listens_where_the_client_is(control: SocketAddrView, relay: SocketAddrView)
    ensures
        control is V6 <==> relay_bind(control) is None,
        relay_bind(control) matches Some(a) ==> a.ip == control->V4_ip && a.port == 0,
        relay is V6 <==> relay_reply(relay) is None,
        relay_reply(relay) matches Some(a) ==> relay == (SocketAddrView::V4 {
            ip: a.ip,
            port: a.port,
        }),
{
}

} // verus!
