//! The bytes of SOCKS5: greeting, request, reply and datagrams.

use vstd::prelude::*;
use vstd::slice::slice_subrange;
use vstd::slice::slice_to_vec;
use crate::addr;
use crate::addr::{Ipv4Addr, Ipv6Addr, SocketAddrV4};
use crate::error;
use crate::error::{EcError, EcErrorView, EcResult};
use crate::text;

verus! {

pub const SOCKS_VERSION_5: u8 = 0x05;

pub const SOCKS_METHOD_NO_AUTH: u8 = 0x00;

pub const SOCKS_METHOD_NOT_ACCEPTABLE: u8 = 0xff;

pub const SOCKS_CMD_CONNECT: u8 = 0x01;

pub const SOCKS_CMD_UDP_ASSOCIATE: u8 = 0x03;

pub const SOCKS_RSV: u8 = 0x00;

pub const SOCKS_ATYP_IPV4: u8 = 0x01;

pub const SOCKS_ATYP_DOMAIN: u8 = 0x03;

pub const SOCKS_ATYP_IPV6: u8 = 0x04;

pub const SOCKS_REP_GENERAL_FAILURE: u8 = 0x01;

pub const SOCKS_REP_SUCCEEDED: u8 = 0x00;

pub const SOCKS_REP_CMD_NOT_SUPPORTED: u8 = 0x07;

pub const SOCKS_REP_ATYP_NOT_SUPPORTED: u8 = 0x08;

// ---------------------------------------------------------------------------
// Values
// ---------------------------------------------------------------------------

/// What a client asks for.
#[derive(Clone, Copy, Debug, PartialEq, Eq, Structural)]
pub enum SocksCommand {
    Connect,
    UdpAssociate,
    Other(u8),
}

/// The host and port that a client wants to reach.
#[derive(Clone, Debug)]
pub struct ConnectTarget {
    pub host: String,
    pub port: u16,
}

/// A request.
#[derive(Debug)]
pub struct SocksRequest {
    pub command: SocksCommand,
    pub target: ConnectTarget,
}

/// A datagram of a client: where it goes, and what it carries.
#[derive(Debug)]
pub struct SocksUdpPacket {
    pub target: ConnectTarget,
    pub payload: Vec<u8>,
}

/// A target as plain values.
#[verifier::ext_equal]
pub ghost struct TargetView {
    pub host: Seq<char>,
    pub port: u16,
}

/// A datagram as plain values.
#[verifier::ext_equal]
pub ghost struct PacketView {
    pub target: TargetView,
    pub payload: Seq<u8>,
}

impl View for ConnectTarget {
    type V = TargetView;

    open spec fn view(&self) -> TargetView {
        TargetView { host: self.host@, port: self.port }
    }
}

impl View for SocksUdpPacket {
    type V = PacketView;

    open spec fn view(&self) -> PacketView {
        PacketView { target: self.target@, payload: self.payload@ }
    }
}

/// The command that a byte stands for.
pub open spec fn command_of(value: u8) -> SocksCommand {
    if value == SOCKS_CMD_CONNECT {
        SocksCommand::Connect
    } else if value == SOCKS_CMD_UDP_ASSOCIATE {
        SocksCommand::UdpAssociate
    } else {
        SocksCommand::Other(value)
    }
}

impl SocksCommand {
    /// The command in words.
    pub open spec fn text(self) -> Seq<char> {
        match self {
            SocksCommand::Connect => "CONNECT"@,
            SocksCommand::UdpAssociate => "UDP ASSOCIATE"@,
            SocksCommand::Other(value) => "0x"@ + text::hex_byte(value),
        }
    }

    /// The command that a byte stands for.
    pub fn from_byte(value: u8) -> (r: Self)
        ensures
            r == command_of(value),
    {
        if value == SOCKS_CMD_CONNECT {
            SocksCommand::Connect
        } else if value == SOCKS_CMD_UDP_ASSOCIATE {
            SocksCommand::UdpAssociate
        } else {
            SocksCommand::Other(value)
        }
    }

    /// The command in words.
    pub fn to_string(&self) -> (r: String)
        ensures
            r@ == self.text(),
    {
        match self {
            SocksCommand::Connect => "CONNECT".to_owned(),
            SocksCommand::UdpAssociate => "UDP ASSOCIATE".to_owned(),
            SocksCommand::Other(value) => {
                let code = text::hex_u8(*value);
                "0x".to_owned().concat(code.as_str())
            },
        }
    }
}

/// A host and a port as they are handed to a dialler: an IPv6 address goes into brackets.
pub open spec fn socket_target(host: Seq<char>, port: Seq<char>) -> Seq<char> {
    let h = text::trimmed(host);
    if addr::ipv6_text(h) is Some {
        "["@ + h + "]:"@ + port
    } else {
        h + ":"@ + port
    }
}

/// A host and a port as they are handed to a dialler.
pub fn format_socket_target(host: &str, port: &str) -> (r: String)
    ensures
        r@ == socket_target(host@, port@),
{
    let cs = text::chars_of(host);
    let h = text::trim(cs.as_slice());
    let shown = text::text_of(h);
    match addr::parse_ipv6(h) {
        Some(_) => "[".to_owned().concat(shown.as_str()).concat("]:").concat(port),
        None => shown.concat(":").concat(port),
    }
}

impl TargetView {
    /// The target as it is shown.
    pub open spec fn text(self) -> Seq<char> {
        self.host + ":"@ + text::decimal(self.port as int)
    }
}

impl ConnectTarget {
    /// The host.
    pub fn host(&self) -> (r: &str)
        ensures
            r@ == self@.host,
    {
        self.host.as_str()
    }

    /// The port.
    pub fn port(&self) -> (r: u16)
        ensures
            r == self@.port,
    {
        self.port
    }

    /// The target as it is handed to a dialler.
    pub fn to_socket_target(&self) -> (r: String)
        ensures
            r@ == socket_target(self@.host, text::decimal(self@.port as int)),
    {
        let p = text::decimal_u64(self.port as u64);
        format_socket_target(self.host.as_str(), p.as_str())
    }

    /// The target as it is shown.
    pub fn to_string(&self) -> (r: String)
        ensures
            r@ == self@.text(),
    {
        let p = text::decimal_u64(self.port as u64);
        self.host.clone().concat(":").concat(p.as_str())
    }

    /// The same target again.
    pub fn duplicate(&self) -> (r: Self)
        ensures
            r@ == self@,
    {
        ConnectTarget { host: self.host.clone(), port: self.port }
    }
}

// ---------------------------------------------------------------------------
// Greeting
// ---------------------------------------------------------------------------

/// What to do with the greeting of a client, as far as it has been read.
#[derive(Debug)]
pub enum NegotiateStep {
    /// Read that many bytes more; the label says what could not be read.
    Need { count: usize, label: &'static str },
    /// Give up.
    Refused(EcError),
    /// Write this reply, and go on to the request.
    Accept { reply: [u8; 2], label: &'static str },
    /// Write this reply, and give up.
    Reject { reply: [u8; 2], label: &'static str, error: EcError },
}

/// What the greeting that has been read so far means.
pub open spec fn negotiation(data: Seq<u8>, r: NegotiateStep) -> bool {
    if data.len() < 2 {
        r matches NegotiateStep::Need { count, label } && count == 2 - data.len() && label@
            == "socks hello read failed"@
    } else if data[0] != SOCKS_VERSION_5 {
        r matches NegotiateStep::Refused(e) && e@ == EcErrorView::Runtime(
            "unsupported socks version"@,
        )
    } else if data.len() < 2 + data[1] {
        r matches NegotiateStep::Need { count, label } && count == 2 + data[1] - data.len()
            && label@ == "socks methods read failed"@
    } else if data.subrange(2, 2 + data[1]).contains(SOCKS_METHOD_NO_AUTH) {
        r matches NegotiateStep::Accept { reply, label } && reply@ == seq![
            SOCKS_VERSION_5,
            SOCKS_METHOD_NO_AUTH,
        ] && label@ == "socks method reply failed"@
    } else {
        r matches NegotiateStep::Reject { reply, label, error } && reply@ == seq![
            SOCKS_VERSION_5,
            SOCKS_METHOD_NOT_ACCEPTABLE,
        ] && label@ == "socks method reject reply failed"@ && error@ == EcErrorView::Runtime(
            "client does not support no-auth method"@,
        )
    }
}

/// Takes the greeting as far as it has been read. A client must offer to go without
/// authentication.
pub fn negotiate_method(data: &[u8]) -> (r: NegotiateStep)
    ensures
        negotiation(data@, r),
{
    let n: usize = data.len();
    if n < 2 {
        return NegotiateStep::Need { count: 2 - n, label: "socks hello read failed" };
    }
    if data[0] != SOCKS_VERSION_5 {
        return NegotiateStep::Refused(EcError::Runtime("unsupported socks version".to_owned()));
    }
    let wanted: usize = 2 + (data[1] as usize);
    if n < wanted {
        return NegotiateStep::Need { count: wanted - n, label: "socks methods read failed" };
    }
    let ghost methods = data@.subrange(2, 2 + data@[1]);
    for i in 2..wanted
        invariant
            wanted <= data@.len(),
            wanted == 2 + data@[1],
            data@.len() >= 2,
            data@[0] == SOCKS_VERSION_5,
            methods == data@.subrange(2, 2 + data@[1]),
            forall|j: int| 0 <= j < i - 2 ==> methods[j] != SOCKS_METHOD_NO_AUTH,
    {
        assert(methods[i - 2] == data@[i as int]);
        if data[i] == SOCKS_METHOD_NO_AUTH {
            let reply = [SOCKS_VERSION_5, SOCKS_METHOD_NO_AUTH];
            assert(reply@ =~= seq![SOCKS_VERSION_5, SOCKS_METHOD_NO_AUTH]);
            return NegotiateStep::Accept { reply, label: "socks method reply failed" };
        }
    }
    let reply = [SOCKS_VERSION_5, SOCKS_METHOD_NOT_ACCEPTABLE];
    assert(reply@ =~= seq![SOCKS_VERSION_5, SOCKS_METHOD_NOT_ACCEPTABLE]);
    NegotiateStep::Reject {
        reply,
        label: "socks method reject reply failed",
        error: EcError::Runtime("client does not support no-auth method".to_owned()),
    }
}

// ---------------------------------------------------------------------------
// Request
// ---------------------------------------------------------------------------

/// What to do with the request of a client, as far as it has been read.
#[derive(Debug)]
pub enum RequestStep {
    /// Read that many bytes more; the label says what could not be read.
    Need { count: usize, label: &'static str },
    /// Give up, after a reply with the given code if there is one.
    Refused { reply: Option<u8>, error: EcError },
    /// The request is complete.
    Done(SocksRequest),
}

/// A step as plain values.
#[verifier::ext_equal]
pub ghost enum RequestStepView {
    Need { count: int, label: Seq<char> },
    Refused { reply: Option<u8>, error: EcErrorView },
    Done { command: SocksCommand, target: TargetView },
}

impl View for RequestStep {
    type V = RequestStepView;

    open spec fn view(&self) -> RequestStepView {
        match *self {
            RequestStep::Need { count, label } => RequestStepView::Need {
                count: count as int,
                label: label@,
            },
            RequestStep::Refused { reply, error } => RequestStepView::Refused {
                reply,
                error: error@,
            },
            RequestStep::Done(request) => RequestStepView::Done {
                command: request.command,
                target: request.target@,
            },
        }
    }
}

/// The address with four given octets.
pub open spec fn ipv4_at(data: Seq<u8>, i: int) -> Ipv4Addr {
    Ipv4Addr {
        bits: addr::join_octets(
            data[i] as int,
            data[i + 1] as int,
            data[i + 2] as int,
            data[i + 3] as int,
        ) as u32,
    }
}

/// The groups of the IPv6 address whose sixteen bytes begin at `i`.
pub open spec fn groups_at(data: Seq<u8>, i: int) -> Seq<u16> {
    Seq::new(8, |k: int| (data[i + 2 * k] * 256 + data[i + 2 * k + 1]) as u16)
}

/// The number of the two bytes that begin at `i`, the higher first.
pub open spec fn port_at(data: Seq<u8>, i: int) -> u16 {
    (data[i] * 256 + data[i + 1]) as u16
}

/// What remains of a request whose host is known: two bytes of port at `at`.
pub open spec fn request_port(
    data: Seq<u8>,
    command: SocksCommand,
    host: Seq<char>,
    at: int,
) -> RequestStepView {
    if data.len() < at + 2 {
        RequestStepView::Need { count: at + 2 - data.len(), label: "read target port failed"@ }
    } else {
        RequestStepView::Done { command, target: TargetView { host, port: port_at(data, at) } }
    }
}

/// What the address of a request, which begins at the fifth byte, means.
pub open spec fn request_address(data: Seq<u8>, command: SocksCommand) -> RequestStepView {
    if data[3] == SOCKS_ATYP_IPV4 {
        if data.len() < 8 {
            RequestStepView::Need { count: 8 - data.len(), label: "read ipv4 failed"@ }
        } else {
            request_port(data, command, ipv4_at(data, 4).text(), 8)
        }
    } else if data[3] == SOCKS_ATYP_DOMAIN {
        if data.len() < 5 {
            RequestStepView::Need { count: 5 - data.len(), label: "read domain length failed"@ }
        } else if data.len() < 5 + data[4] {
            RequestStepView::Need {
                count: 5 + data[4] - data.len(),
                label: "read domain failed"@,
            }
        } else {
            let domain = data.subrange(5, 5 + data[4]);
            if vstd::utf8::valid_utf8(domain) {
                request_port(data, command, vstd::utf8::decode_utf8(domain), 5 + data[4])
            } else {
                RequestStepView::Refused {
                    reply: None,
                    error: EcErrorView::Runtime(
                        "invalid domain utf8: "@ + text::utf8_failure(domain),
                    ),
                }
            }
        }
    } else if data[3] == SOCKS_ATYP_IPV6 {
        if data.len() < 20 {
            RequestStepView::Need { count: 20 - data.len(), label: "read ipv6 failed"@ }
        } else {
            request_port(data, command, addr::ipv6_display(groups_at(data, 4)), 20)
        }
    } else {
        RequestStepView::Refused {
            reply: Some(SOCKS_REP_ATYP_NOT_SUPPORTED),
            error: EcErrorView::Runtime(
                "unsupported socks atyp: 0x"@ + text::hex_byte(data[3]),
            ),
        }
    }
}

/// What the request that has been read so far means.
pub open spec fn request_step(data: Seq<u8>) -> RequestStepView {
    if data.len() < 4 {
        RequestStepView::Need { count: 4 - data.len(), label: "socks request head read failed"@ }
    } else if data[0] != SOCKS_VERSION_5 {
        RequestStepView::Refused {
            reply: None,
            error: EcErrorView::Runtime("invalid socks request version"@),
        }
    } else if command_of(data[1]) is Other {
        RequestStepView::Refused {
            reply: Some(SOCKS_REP_CMD_NOT_SUPPORTED),
            error: EcErrorView::Runtime(
                "unsupported socks command: "@ + command_of(data[1]).text(),
            ),
        }
    } else if data[2] != SOCKS_RSV {
        RequestStepView::Refused {
            reply: Some(SOCKS_REP_GENERAL_FAILURE),
            error: EcErrorView::Runtime("invalid socks reserved byte"@),
        }
    } else {
        request_address(data, command_of(data[1]))
    }
}

/// The host that sixteen bytes of IPv6 address write.
fn ipv6_host(data: &[u8], i: usize) -> (r: String)
    requires
        i + 16 <= data@.len(),
    ensures
        r@ == addr::ipv6_display(groups_at(data@, i as int)),
{
    let _n: usize = data.len();
    let ip = Ipv6Addr::from_octets(slice_subrange(data, i, i + 16));
    let ghost part = data@.subrange(i as int, i + 16);
    assert(ip.segments@ =~= groups_at(data@, i as int)) by {
        assert forall|k: int| 0 <= k < 8 implies ip.segments@[k] == groups_at(
            data@,
            i as int,
        )[k] by {
            assert(ip.bytes()[2 * k] == part[2 * k]);
            assert(ip.bytes()[2 * k + 1] == part[2 * k + 1]);
            assert((2 * k) / 2 == k && (2 * k + 1) / 2 == k);
        }
    }
    ip.to_string()
}

fn finish_request(data: &[u8], command: SocksCommand, host: String, at: usize) -> (r: RequestStep)
    requires
        at <= data@.len(),
        at <= 300,
    ensures
        r@ == request_port(data@, command, host@, at as int),
{
    let n: usize = data.len();
    if n < at + 2 {
        return RequestStep::Need { count: at + 2 - n, label: "read target port failed" };
    }
    let port: u16 = (data[at] as u16) * 256 + (data[at + 1] as u16);
    RequestStep::Done(SocksRequest { command, target: ConnectTarget { host, port } })
}

fn read_request_target(data: &[u8], command: SocksCommand) -> (r: RequestStep)
    requires
        data@.len() >= 4,
    ensures
        r@ == request_address(data@, command),
{
    let n: usize = data.len();
    let atyp: u8 = data[3];
    if atyp == SOCKS_ATYP_IPV4 {
        if n < 8 {
            return RequestStep::Need { count: 8 - n, label: "read ipv4 failed" };
        }
        let ip = Ipv4Addr::new(data[4], data[5], data[6], data[7]);
        finish_request(data, command, ip.to_string(), 8)
    } else if atyp == SOCKS_ATYP_DOMAIN {
        if n < 5 {
            return RequestStep::Need { count: 5 - n, label: "read domain length failed" };
        }
        let end: usize = 5 + (data[4] as usize);
        if n < end {
            return RequestStep::Need { count: end - n, label: "read domain failed" };
        }
        let domain = slice_to_vec(slice_subrange(data, 5, end));
        match text::from_utf8(domain) {
            Ok(host) => finish_request(data, command, host, end),
            Err(why) => RequestStep::Refused {
                reply: None,
                error: EcError::Runtime("invalid domain utf8: ".to_owned().concat(why.as_str())),
            },
        }
    } else if atyp == SOCKS_ATYP_IPV6 {
        if n < 20 {
            return RequestStep::Need { count: 20 - n, label: "read ipv6 failed" };
        }
        let host = ipv6_host(data, 4);
        finish_request(data, command, host, 20)
    } else {
        let code = text::hex_u8(atyp);
        RequestStep::Refused {
            reply: Some(SOCKS_REP_ATYP_NOT_SUPPORTED),
            error: EcError::Runtime("unsupported socks atyp: 0x".to_owned().concat(code.as_str())),
        }
    }
}

/// Takes the request as far as it has been read.
pub fn read_socks_request(data: &[u8]) -> (r: RequestStep)
    ensures
        r@ == request_step(data@),
{
    let n: usize = data.len();
    if n < 4 {
        return RequestStep::Need { count: 4 - n, label: "socks request head read failed" };
    }
    if data[0] != SOCKS_VERSION_5 {
        return RequestStep::Refused {
            reply: None,
            error: EcError::Runtime("invalid socks request version".to_owned()),
        };
    }
    let command = SocksCommand::from_byte(data[1]);
    match command {
        SocksCommand::Other(_) => {
            let shown = command.to_string();
            return RequestStep::Refused {
                reply: Some(SOCKS_REP_CMD_NOT_SUPPORTED),
                error: EcError::Runtime(
                    "unsupported socks command: ".to_owned().concat(shown.as_str()),
                ),
            };
        },
        _ => {},
    }
    if data[2] != SOCKS_RSV {
        return RequestStep::Refused {
            reply: Some(SOCKS_REP_GENERAL_FAILURE),
            error: EcError::Runtime("invalid socks reserved byte".to_owned()),
        };
    }
    read_request_target(data, command)
}

// ---------------------------------------------------------------------------
// Replies
// ---------------------------------------------------------------------------

/// A port as two bytes, the higher first.
pub open spec fn port_bytes(port: u16) -> Seq<u8> {
    seq![(port / 256) as u8, (port % 256) as u8]
}

/// The reply with the given code and bound address.
pub open spec fn reply_bytes(rep: u8, bound: SocketAddrV4) -> Seq<u8> {
    seq![SOCKS_VERSION_5, rep, SOCKS_RSV, SOCKS_ATYP_IPV4] + bound.ip.bytes() + port_bytes(
        bound.port,
    )
}

/// The reply with the given code and no bound address.
pub fn write_reply(rep: u8) -> (r: Vec<u8>)
    ensures
        r@ == reply_bytes(rep, SocketAddrV4 { ip: Ipv4Addr { bits: 0 }, port: 0 }),
{
    write_bound_reply(rep, SocketAddrV4 { ip: Ipv4Addr { bits: 0 }, port: 0 })
}

fn push_ipv4(out: &mut Vec<u8>, a: SocketAddrV4)
    ensures
        final(out)@ == old(out)@ + a.ip.bytes() + port_bytes(a.port),
{
    let o = a.ip.octets();
    let ghost start = out@;
    out.push(o[0]);
    out.push(o[1]);
    out.push(o[2]);
    out.push(o[3]);
    out.push((a.port / 256) as u8);
    out.push((a.port % 256) as u8);
    assert(out@ =~= start + a.ip.bytes() + port_bytes(a.port));
}

/// The reply with the given code and bound address.
pub fn write_bound_reply(rep: u8, bound: SocketAddrV4) -> (r: Vec<u8>)
    ensures
        r@ == reply_bytes(rep, bound),
{
    let mut out: Vec<u8> = Vec::new();
    out.push(SOCKS_VERSION_5);
    out.push(rep);
    out.push(SOCKS_RSV);
    out.push(SOCKS_ATYP_IPV4);
    assert(out@ =~= seq![SOCKS_VERSION_5, rep, SOCKS_RSV, SOCKS_ATYP_IPV4]);
    push_ipv4(&mut out, bound);
    out
}

// ---------------------------------------------------------------------------
// Datagrams
// ---------------------------------------------------------------------------

/// What stands behind the address of a datagram: two bytes of port at `at`, and the payload.
pub open spec fn packet_port(data: Seq<u8>, host: Seq<char>, at: int) -> Result<
    PacketView,
    EcErrorView,
> {
    if data.len() < at + 2 {
        Err(EcErrorView::Runtime("udp port is truncated"@))
    } else {
        Ok(
            PacketView {
                target: TargetView { host, port: port_at(data, at) },
                payload: data.skip(at + 2),
            },
        )
    }
}

/// The datagram that bytes hold, or why they hold none.
pub open spec fn packet_of(data: Seq<u8>) -> Result<PacketView, EcErrorView> {
    if data.len() < 4 {
        Err(EcErrorView::Runtime("udp packet header is too short"@))
    } else if data[0] != 0 || data[1] != 0 {
        Err(EcErrorView::Runtime("udp packet with non-zero RSV is not supported"@))
    } else if data[2] != 0 {
        Err(EcErrorView::Runtime("fragmented udp packet is not supported"@))
    } else if data[3] == SOCKS_ATYP_IPV4 {
        if data.len() < 8 {
            Err(EcErrorView::Runtime("udp ipv4 address is truncated"@))
        } else {
            packet_port(data, ipv4_at(data, 4).text(), 8)
        }
    } else if data[3] == SOCKS_ATYP_DOMAIN {
        if data.len() < 5 {
            Err(EcErrorView::Runtime("udp domain length is truncated"@))
        } else if data.len() < 5 + data[4] {
            Err(EcErrorView::Runtime("udp domain is truncated"@))
        } else {
            let domain = data.subrange(5, 5 + data[4]);
            if vstd::utf8::valid_utf8(domain) {
                packet_port(data, vstd::utf8::decode_utf8(domain), 5 + data[4])
            } else {
                Err(
                    EcErrorView::Runtime(
                        "invalid udp domain utf8: "@ + text::utf8_failure(domain),
                    ),
                )
            }
        }
    } else if data[3] == SOCKS_ATYP_IPV6 {
        Err(EcErrorView::Runtime("udp ipv6 targets are not supported yet"@))
    } else {
        Err(EcErrorView::Runtime("unsupported udp atyp: 0x"@ + text::hex_byte(data[3])))
    }
}

fn finish_packet(data: &[u8], host: String, at: usize) -> (r: EcResult<SocksUdpPacket>)
    requires
        at <= data@.len(),
        at <= 300,
    ensures
        error::shown(r) == packet_port(data@, host@, at as int),
{
    let n: usize = data.len();
    if n < at + 2 {
        return Err(EcError::Runtime("udp port is truncated".to_owned()));
    }
    let port: u16 = (data[at] as u16) * 256 + (data[at + 1] as u16);
    let payload = slice_to_vec(slice_subrange(data, at + 2, n));
    assert(payload@ =~= data@.skip(at + 2));
    Ok(SocksUdpPacket { target: ConnectTarget { host, port }, payload })
}

/// The datagram that bytes hold.
pub fn parse_socks_udp_packet(data: &[u8]) -> (r: EcResult<SocksUdpPacket>)
    ensures
        error::shown(r) == packet_of(data@),
{
    let n: usize = data.len();
    if n < 4 {
        return Err(EcError::Runtime("udp packet header is too short".to_owned()));
    }
    if data[0] != 0 || data[1] != 0 {
        return Err(EcError::Runtime("udp packet with non-zero RSV is not supported".to_owned()));
    }
    if data[2] != 0 {
        return Err(EcError::Runtime("fragmented udp packet is not supported".to_owned()));
    }
    let atyp: u8 = data[3];
    if atyp == SOCKS_ATYP_IPV4 {
        if n < 8 {
            return Err(EcError::Runtime("udp ipv4 address is truncated".to_owned()));
        }
        let ip = Ipv4Addr::new(data[4], data[5], data[6], data[7]);
        finish_packet(data, ip.to_string(), 8)
    } else if atyp == SOCKS_ATYP_DOMAIN {
        if n < 5 {
            return Err(EcError::Runtime("udp domain length is truncated".to_owned()));
        }
        let end: usize = 5 + (data[4] as usize);
        if n < end {
            return Err(EcError::Runtime("udp domain is truncated".to_owned()));
        }
        let domain = slice_to_vec(slice_subrange(data, 5, end));
        match text::from_utf8(domain) {
            Ok(host) => finish_packet(data, host, end),
            Err(why) => Err(
                EcError::Runtime("invalid udp domain utf8: ".to_owned().concat(why.as_str())),
            ),
        }
    } else if atyp == SOCKS_ATYP_IPV6 {
        Err(EcError::Runtime("udp ipv6 targets are not supported yet".to_owned()))
    } else {
        let code = text::hex_u8(atyp);
        Err(EcError::Runtime("unsupported udp atyp: 0x".to_owned().concat(code.as_str())))
    }
}

/// A datagram that comes from an IPv4 address, as it is handed to a client.
pub open spec fn packet_bytes(source: SocketAddrV4, payload: Seq<u8>) -> Seq<u8> {
    seq![0u8, 0, 0, SOCKS_ATYP_IPV4] + source.ip.bytes() + port_bytes(source.port) + payload
}

/// A datagram that comes from an IPv4 address, as it is handed to a client.
pub fn encode_socks_udp_packet(source: SocketAddrV4, payload: &[u8]) -> (r: Vec<u8>)
    ensures
        r@ == packet_bytes(source, payload@),
{
    let mut out: Vec<u8> = Vec::new();
    out.push(0);
    out.push(0);
    out.push(0);
    out.push(SOCKS_ATYP_IPV4);
    assert(out@ =~= seq![0u8, 0, 0, SOCKS_ATYP_IPV4]);
    push_ipv4(&mut out, source);
    let mut body = slice_to_vec(payload);
    out.append(&mut body);
    out
}

// ---------------------------------------------------------------------------
// Laws
// ---------------------------------------------------------------------------

/// A datagram handed to a client reads back as one for the address it came from, with the
/// same payload.
pub proof fn law_datagram_round_trip(source: SocketAddrV4, payload: Seq<u8>)
    ensures
        packet_of(packet_bytes(source, payload)) == Ok::<PacketView, EcErrorView>(
            PacketView {
                target: TargetView { host: source.ip.text(), port: source.port },
                payload,
            },
        ),
{
    let data = packet_bytes(source, payload);
    let b = source.ip.bytes();
    assert(data[0] == 0 && data[1] == 0 && data[2] == 0 && data[3] == SOCKS_ATYP_IPV4);
    assert(data[4] == b[0] && data[5] == b[1] && data[6] == b[2] && data[7] == b[3]);
    assert(ipv4_at(data, 4) == source.ip) by {
        addr::lemma_join_bytes(source.ip);
    }
    assert(data[8] == (source.port / 256) as u8 && data[9] == (source.port % 256) as u8);
    assert(port_at(data, 8) == source.port);
    assert(data.skip(10) =~= payload);
}

/// However a request is cut into pieces, what is asked for is never more than what is
/// missing: with the bytes asked for, the same head is read on.
pub proof fn law_request_needs_what_is_missing(data: Seq<u8>, more: Seq<u8>)
    requires
        request_step(data) matches RequestStepView::Need { count, .. } && more.len() < count,
    ensures
        request_step(data + more) matches RequestStepView::Need { count, .. } && count
            == request_step(data)->count - more.len(),
{
    let whole = data + more;
    if data.len() >= 4 {
        assert(whole[0] == data[0] && whole[1] == data[1] && whole[2] == data[2] && whole[3]
            == data[3]);
        if data.len() >= 5 {
            assert(whole[4] == data[4]);
            if data[3] == SOCKS_ATYP_DOMAIN && data.len() >= 5 + data[4] {
                assert(whole.subrange(5, 5 + data[4]) =~= data.subrange(5, 5 + data[4]));
            }
        }
    }
}

/// A request that is complete stays so, with the same meaning, whatever follows it.
pub proof fn law_complete_request_ignores_what_follows(data: Seq<u8>, more: Seq<u8>)
    requires
        request_step(data) is Done,
    ensures
        request_step(data + more) == request_step(data),
{
    let whole = data + more;
    assert(whole[0] == data[0] && whole[1] == data[1] && whole[2] == data[2] && whole[3]
        == data[3]);
    if data[3] == SOCKS_ATYP_IPV6 {
        assert(groups_at(whole, 4) =~= groups_at(data, 4));
    } else if data[3] == SOCKS_ATYP_DOMAIN {
        assert(whole[4] == data[4]);
        assert(whole.subrange(5, 5 + data[4]) =~= data.subrange(5, 5 + data[4]));
    }
}

/// A datagram for a name, in its bytes, reads as one for that name, that port and that payload,
/// whatever they are.
#[verifier::rlimit(40)]
pub proof fn law_named_datagrams_are_read(host: Seq<char>, port: u16, payload: Seq<u8>)
    requires
        vstd::utf8::encode_utf8(host).len() <= 255,
    ensures
        ({
            let name = vstd::utf8::encode_utf8(host);
            let data = seq![0u8, 0, 0, 3, name.len() as u8] + name + seq![
                (port / 256) as u8,
                (port % 256) as u8,
            ] + payload;
            packet_of(data) == Ok::<PacketView, EcErrorView>(
                PacketView { target: TargetView { host, port }, payload },
            )
        }),
{
    let name = vstd::utf8::encode_utf8(host);
    let data = seq![0u8, 0, 0, 3, name.len() as u8] + name + seq![
        (port / 256) as u8,
        (port % 256) as u8,
    ] + payload;
    let n = name.len() as int;
    vstd::utf8::encode_utf8_valid_utf8(host);
    vstd::utf8::encode_utf8_decode_utf8(host);
    assert(data[4] == n);
    assert(data.subrange(5, 5 + n) =~= name);
    assert(data[5 + n] == (port / 256) as u8 && data[6 + n] == (port % 256) as u8);
    assert(data.skip(7 + n) =~= payload);
}

/// A datagram for four octets of address, in its bytes, reads as one for that address in
/// dotted decimal, that port and that payload.
#[verifier::rlimit(40)]
pub proof fn law_addressed_datagrams_are_read(
    a: u8,
    b: u8,
    c: u8,
    d: u8,
    hi: u8,
    lo: u8,
    payload: Seq<u8>,
)
    ensures
        packet_of(seq![0u8, 0, 0, 1, a, b, c, d, hi, lo] + payload) == Ok::<
            PacketView,
            EcErrorView,
        >(
            PacketView {
                target: TargetView {
                    host: text::decimal(a as int) + "."@ + text::decimal(b as int) + "."@
                        + text::decimal(c as int) + "."@ + text::decimal(d as int),
                    port: (256 * hi + lo) as u16,
                },
                payload,
            },
        ),
{
    let data = seq![0u8, 0, 0, 1, a, b, c, d, hi, lo] + payload;
    addr::law_dotted_decimal(a, b, c, d);
    assert(data[4] == a && data[5] == b && data[6] == c && data[7] == d);
    assert(data[8] == hi && data[9] == lo);
    assert(data.skip(10) =~= payload);
}

/// A datagram is refused if its reserved bytes are not zero, if it is a fragment, if its
/// address is neither IPv4 nor a name, or if it ends before its payload begins.
pub proof fn law_broken_datagrams_are_refused(data: Seq<u8>)
    ensures
        packet_of(data) is Ok ==> {
            &&& data.len() >= 7
            &&& data[0] == 0 && data[1] == 0 && data[2] == 0
            &&& data[3] == 1 || data[3] == 3
            &&& data[3] == 1 ==> data.len() >= 10
            &&& data[3] == 3 ==> data.len() >= 7 + data[4]
        },
        data.len() >= 10 && data[0] == 0 && data[1] == 0 && data[2] == 0 && data[3] == 1
            ==> packet_of(data) is Ok,
{
}

/// A request to connect, or for datagrams, that names its target in bytes reads as that
/// request for that name and port.
#[verifier::rlimit(40)]
pub proof fn law_named_requests_are_read(host: Seq<char>, port: u16, datagrams: bool)
    requires
        vstd::utf8::encode_utf8(host).len() <= 255,
    ensures
        ({
            let name = vstd::utf8::encode_utf8(host);
            let command: u8 = if datagrams {
                3
            } else {
                1
            };
            let data = seq![5u8, command, 0, 3, name.len() as u8] + name + seq![
                (port / 256) as u8,
                (port % 256) as u8,
            ];
            request_step(data) == (RequestStepView::Done {
                command: if datagrams {
                    SocksCommand::UdpAssociate
                } else {
                    SocksCommand::Connect
                },
                target: TargetView { host, port },
            })
        }),
{
    let name = vstd::utf8::encode_utf8(host);
    let command: u8 = if datagrams {
        3
    } else {
        1
    };
    let data = seq![5u8, command, 0, 3, name.len() as u8] + name + seq![
        (port / 256) as u8,
        (port % 256) as u8,
    ];
    let n = name.len() as int;
    vstd::utf8::encode_utf8_valid_utf8(host);
    vstd::utf8::encode_utf8_decode_utf8(host);
    assert(data[4] == n);
    assert(data.subrange(5, 5 + n) =~= name);
    assert(data[5 + n] == (port / 256) as u8 && data[6 + n] == (port % 256) as u8);
}

/// A request that gives its target as an address in bytes reads as one for that address, in
/// its usual text, and that port.
#[verifier::rlimit(40)]
pub proof fn law_addressed_requests_are_read(
    command: SocksCommand,
    a: u8,
    b: u8,
    c: u8,
    d: u8,
    wide: Seq<u8>,
    groups: Seq<u16>,
    hi: u8,
    lo: u8,
)
    requires
        command is Connect || command is UdpAssociate,
        wide.len() == 16,
        groups.len() == 8,
        forall|k: int| 0 <= k < 8 ==> #[trigger] groups[k] == 256 * wide[2 * k] + wide[2 * k + 1],
    ensures
        ({
            let number: u8 = if command is Connect {
                1
            } else {
                3
            };
            let port = (256 * hi + lo) as u16;
            &&& request_step(seq![5u8, number, 0, 1, a, b, c, d, hi, lo])
                == (RequestStepView::Done {
                command,
                target: TargetView {
                    host: text::decimal(a as int) + "."@ + text::decimal(b as int) + "."@
                        + text::decimal(c as int) + "."@ + text::decimal(d as int),
                    port,
                },
            })
            &&& request_step(seq![5u8, number, 0, 4] + wide + seq![hi, lo])
                == (RequestStepView::Done {
                command,
                target: TargetView { host: addr::ipv6_display(groups), port },
            })
        }),
{
    let number: u8 = if command is Connect {
        1
    } else {
        3
    };
    addr::law_dotted_decimal(a, b, c, d);
    let data = seq![5u8, number, 0, 4] + wide + seq![hi, lo];
    assert(groups_at(data, 4) =~= groups) by {
        assert forall|k: int| 0 <= k < 8 implies groups_at(data, 4)[k] == groups[k] by {
            assert(data[4 + 2 * k] == wide[2 * k]);
            assert(data[4 + 2 * k + 1] == wide[2 * k + 1]);
            assert(groups[k] == 256 * wide[2 * k] + wide[2 * k + 1]);
        }
    }
    assert(data[20] == hi && data[21] == lo);
}

/// A request of another version is refused without a reply, another command with reply seven, a
/// reserved byte that is not zero with reply one, and another kind of address with reply eight.
pub proof fn law_refused_requests_are_answered(data: Seq<u8>)
    requires
        data.len() >= 4,
    ensures
        data[0] != 5 ==> (request_step(data) matches RequestStepView::Refused { reply, .. } && reply
            is None),
        data[0] == 5 && data[1] != 1 && data[1] != 3 ==> (request_step(
            data,
        ) matches RequestStepView::Refused { reply, .. } && reply == Some(7u8)),
        data[0] == 5 && (data[1] == 1 || data[1] == 3) && data[2] != 0 ==> (request_step(
            data,
        ) matches RequestStepView::Refused { reply, .. } && reply == Some(1u8)),
        data[0] == 5 && (data[1] == 1 || data[1] == 3) && data[2] == 0 && data[3] != 1 && data[3]
            != 3 && data[3] != 4 ==> (request_step(data) matches RequestStepView::Refused {
            reply,
            ..
        } && reply == Some(8u8)),
        request_step(data) is Done ==> data[0] == 5 && data[2] == 0 && (data[1] == 1 || data[1]
            == 3) && (data[3] == 1 || data[3] == 3 || data[3] == 4),
{
}

/// A client that offers some methods is accepted if and only if going without authentication,
/// which is number zero, is one of them, wherever it stands. The answer to the others is 255.
pub proof fn law_no_authentication_is_wanted(methods: Seq<u8>, step: NegotiateStep)
    requires
        methods.len() <= 255,
        negotiation(seq![5u8, methods.len() as u8] + methods, step),
    ensures
        step is Accept <==> exists|i: int| 0 <= i < methods.len() && methods[i] == 0,
        step is Accept || step is Reject,
        step matches NegotiateStep::Accept { reply, .. } ==> reply@ == seq![5u8, 0u8],
        step matches NegotiateStep::Reject { reply, .. } ==> reply@ == seq![5u8, 255u8],
{
    let data = seq![5u8, methods.len() as u8] + methods;
    assert(data.subrange(2, 2 + data[1]) =~= methods);
    if exists|i: int| 0 <= i < methods.len() && methods[i] == 0 {
        let i = choose|i: int| 0 <= i < methods.len() && methods[i] == 0;
        assert(methods.contains(methods[i]));
    }
}

/// A greeting is read on until it is complete, and one of another version is refused.
pub proof fn law_greetings_are_read_to_their_end(data: Seq<u8>, step: NegotiateStep)
    requires
        negotiation(data, step),
    ensures
        data.len() == 0 ==> (step matches NegotiateStep::Need { count, .. } && count == 2),
        data.len() == 1 ==> (step matches NegotiateStep::Need { count, .. } && count == 1),
        data.len() >= 2 && data[0] != 5 ==> step is Refused,
        data.len() >= 2 && data[0] == 5 && data.len() < 2 + data[1] ==> (
        step matches NegotiateStep::Need { count, .. } && data.len() + count == 2 + data[1]),
{
}

/// The bytes of a reply: version, code, a zero, the mark of an IPv4 address, the four octets
/// of the address and the two bytes of the port.
pub proof fn law_replies_in_bytes(rep: u8, a: u8, b: u8, c: u8, d: u8, port: u16)
    ensures
        ({
            let ip = Ipv4Addr { bits: (16777216 * a + 65536 * b + 256 * c + d) as u32 };
            let bytes = reply_bytes(rep, SocketAddrV4 { ip, port });
            &&& bytes.take(8) == seq![5u8, rep, 0, 1, a, b, c, d]
            &&& bytes.len() == 10
            &&& 256 * bytes[8] + bytes[9] == port
        }),
{
    let ip = Ipv4Addr { bits: (16777216 * a + 65536 * b + 256 * c + d) as u32 };
    let bytes = reply_bytes(rep, SocketAddrV4 { ip, port });
    addr::law_dotted_decimal(a, b, c, d);
    assert(bytes.take(8) =~= seq![5u8, rep, 0, 1, a, b, c, d]);
}

/// What is handed to a dialler for an address and a port is a socket address that is read back
/// as these; for a host that is no IPv6 address it is the host, a colon and the port.
#[verifier::rlimit(40)]
pub proof fn law_targets_can_be_dialled(
    ip: Ipv4Addr,
    groups: Seq<u16>,
    port: u16,
    host: Seq<char>,
)
    requires
        groups.len() == 8,
        host.len() > 0 ==> !text::is_white(host[0]) && !text::is_white(host.last()),
        addr::ipv6_text(host) is None,
    ensures
        ({
            let p = text::decimal(port as int);
            &&& addr::socket_text(socket_target(ip.text(), p)) == Some(
                addr::SocketAddrView::V4 { ip, port },
            )
            &&& addr::socket_text(socket_target(addr::ipv6_display(groups), p)) == Some(
                addr::SocketAddrView::V6 { groups, port, flow: 0, scope: 0 },
            )
            &&& socket_target(host, p) == host + ":"@ + p
            &&& (TargetView { host, port }).text() == host + ":"@ + p
        }),
{
    let s = ip.text();
    addr::lemma_ipv4_is_no_socket(ip);
    addr::lemma_ipv4_is_no_ipv6(ip);
    text::lemma_trimmed_already(s);
    addr::law_socket_v4_text_is_read_back(ip, port);
    let w = addr::ipv6_display(groups);
    addr::law_ipv6_text_is_read_back(groups);
    addr::lemma_ipv6_is_no_socket(groups);
    text::lemma_trimmed_already(w);
    addr::law_socket_v6_text_is_read_back(groups, port, 0, 0);
    text::lemma_trimmed_already(host);
}

} // verus!
