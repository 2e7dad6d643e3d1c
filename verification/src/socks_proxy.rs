//! The fallback proxy: its address, and the bytes exchanged with it.

use vstd::prelude::*;
use vstd::slice::slice_to_vec;
use crate::addr;
use crate::error::{EcError, EcErrorView, EcResult};
use crate::socks_wire;
use crate::socks_wire::{
    SOCKS_ATYP_DOMAIN, SOCKS_ATYP_IPV4, SOCKS_ATYP_IPV6, SOCKS_CMD_CONNECT, SOCKS_METHOD_NO_AUTH,
    SOCKS_REP_SUCCEEDED, SOCKS_RSV, SOCKS_VERSION_5,
};
use crate::text;

verus! {

/// The longest head of an HTTP reply.
pub const HTTP_PROXY_HEAD_MAX_SIZE: usize = 16384;

/// The error for a scheme that is not spoken.
pub const FALLBACK_SCHEME_ERROR: &'static str = "fallback is invalid: only socks5://, socks5h:// and http:// are supported";

// ---------------------------------------------------------------------------
// The address of the proxy
// ---------------------------------------------------------------------------

/// What a proxy speaks.
#[derive(Clone, Copy, Debug, PartialEq, Eq, Structural)]
pub enum FallbackProxyKind {
    Socks5,
    Http,
}

/// A proxy that takes what does not go through the tunnel.
#[derive(Clone, Debug)]
pub struct FallbackProxy {
    pub url: String,
    pub addr: String,
    pub kind: FallbackProxyKind,
}

/// A proxy as plain values.
#[verifier::ext_equal]
pub ghost struct ProxyView {
    pub url: Seq<char>,
    pub addr: Seq<char>,
    pub kind: FallbackProxyKind,
}

impl View for FallbackProxy {
    type V = ProxyView;

    open spec fn view(&self) -> ProxyView {
        ProxyView { url: self.url@, addr: self.addr@, kind: self.kind }
    }
}

/// What a proxy with the given scheme speaks.
pub open spec fn kind_of(scheme: Seq<char>) -> Option<FallbackProxyKind> {
    if scheme == "socks5"@ || scheme == "socks5h"@ {
        Some(FallbackProxyKind::Socks5)
    } else if scheme == "http"@ {
        Some(FallbackProxyKind::Http)
    } else {
        None
    }
}

/// The proxy that a trimmed text names: an address with a scheme, or one without, which
/// speaks SOCKS5.
pub open spec fn proxy_of(raw: Seq<char>) -> Result<ProxyView, EcErrorView> {
    match text::first_text(raw, "://"@) {
        Some(i) => match kind_of(raw.take(i)) {
            None => Err(EcErrorView::InvalidConfig(FALLBACK_SCHEME_ERROR@)),
            Some(kind) => {
                let addr = text::trimmed(raw.skip(i + 3));
                if text::trimmed(addr).len() == 0 {
                    Err(EcErrorView::InvalidConfig("fallback is invalid: empty proxy address"@))
                } else {
                    Ok(ProxyView { url: raw, addr, kind })
                }
            },
        },
        None => if text::trimmed(raw).len() == 0 {
            Err(EcErrorView::InvalidConfig("fallback is invalid: empty proxy address"@))
        } else {
            Ok(
                ProxyView {
                    url: "socks5h"@ + "://"@ + raw,
                    addr: raw,
                    kind: FallbackProxyKind::Socks5,
                },
            )
        },
    }
}

/// The proxy that the user's setting names; blank settings name none.
pub open spec fn fallback_of(raw: Option<Seq<char>>) -> Result<Option<ProxyView>, EcErrorView> {
    match raw {
        None => Ok(None),
        Some(s) => if text::trimmed(s).len() == 0 {
            Ok(None)
        } else {
            match proxy_of(text::trimmed(text::trimmed(s))) {
                Ok(p) => Ok(Some(p)),
                Err(e) => Err(e),
            }
        },
    }
}

/// A result with an optional proxy, as plain values.
pub open spec fn shown_proxy(r: EcResult<Option<FallbackProxy>>) -> Result<
    Option<ProxyView>,
    EcErrorView,
> {
    match r {
        Ok(p) => Ok(text::shown(p)),
        Err(e) => Err(e@),
    }
}

/// The proxy that the user's setting names; blank settings name none.
pub fn parse_fallback_proxy(raw: Option<&str>) -> (r: EcResult<Option<FallbackProxy>>)
    ensures
        shown_proxy(r) == fallback_of(text::shown(raw)),
{
    match raw {
        None => Ok(None),
        Some(s) => {
            let cs = text::chars_of(s);
            let t = text::trim(cs.as_slice());
            if t.len() == 0 {
                return Ok(None);
            }
            let value = text::text_of(t);
            match parse_fallback_proxy_value(value.as_str()) {
                Ok(p) => Ok(Some(p)),
                Err(e) => Err(e),
            }
        },
    }
}

/// The proxy that a setting names, with white space round it or not.
pub fn parse_fallback_proxy_value(raw: &str) -> (r: EcResult<FallbackProxy>)
    ensures
        crate::error::shown(r) == proxy_of(text::trimmed(raw@)),
{
    let cs = text::chars_of(raw);
    let raw = text::trim(cs.as_slice());
    let mark = text::chars_of("://");
    let n: usize = raw.len();
    proof {
        reveal_strlit("://");
    }
    let parsed = match text::find_text(raw, mark.as_slice()) {
        Some(i) => {
            assert(text::occurs_at(raw@, mark@, i as int));
            match parse_fallback_proxy_scheme(text::take(raw, i)) {
                None => {
                    return Err(EcError::InvalidConfig(FALLBACK_SCHEME_ERROR));
                },
                Some(kind) => FallbackProxy {
                    addr: text::text_of(text::trim(text::skip(raw, i + 3))),
                    url: text::text_of(raw),
                    kind,
                },
            }
        },
        None => {
            let plain = text::text_of(raw);
            FallbackProxy {
                url: "socks5h".to_owned().concat("://").concat(plain.as_str()),
                addr: plain,
                kind: FallbackProxyKind::Socks5,
            }
        },
    };
    let addr_chars = text::chars_of(parsed.addr.as_str());
    let addr_trimmed = text::trim(addr_chars.as_slice());
    if addr_trimmed.len() == 0 {
        return Err(EcError::InvalidConfig("fallback is invalid: empty proxy address"));
    }
    Ok(parsed)
}

fn parse_fallback_proxy_scheme(scheme: &[char]) -> (r: Option<FallbackProxyKind>)
    ensures
        r == kind_of(scheme@),
{
    let socks5 = text::chars_of("socks5");
    let socks5h = text::chars_of("socks5h");
    let http = text::chars_of("http");
    if text::same(scheme, socks5.as_slice()) || text::same(scheme, socks5h.as_slice()) {
        Some(FallbackProxyKind::Socks5)
    } else if text::same(scheme, http.as_slice()) {
        Some(FallbackProxyKind::Http)
    } else {
        None
    }
}

// ---------------------------------------------------------------------------
// A SOCKS5 proxy
// ---------------------------------------------------------------------------

/// The greeting: one method, no authentication.
pub fn greeting() -> (r: [u8; 3])
    ensures
        r@ == seq![SOCKS_VERSION_5, 1u8, SOCKS_METHOD_NO_AUTH],
{
    let r = [SOCKS_VERSION_5, 1, SOCKS_METHOD_NO_AUTH];
    assert(r@ =~= seq![SOCKS_VERSION_5, 1u8, SOCKS_METHOD_NO_AUTH]);
    r
}

/// Takes the answer to the greeting: the proxy must do without authentication.
pub fn negotiate_socks5_proxy_no_auth(method_resp: [u8; 2]) -> (r: EcResult<()>)
    ensures
        if method_resp@[0] == SOCKS_VERSION_5 && method_resp@[1] == SOCKS_METHOD_NO_AUTH {
            r is Ok
        } else {
            r matches Err(e) && e@ == EcErrorView::Runtime(
                "fallback proxy auth method unsupported: version=0x"@ + text::hex_byte(
                    method_resp@[0],
                ) + " method=0x"@ + text::hex_byte(method_resp@[1]),
            )
        },
{
    if method_resp[0] == SOCKS_VERSION_5 && method_resp[1] == SOCKS_METHOD_NO_AUTH {
        Ok(())
    } else {
        let version = text::hex_u8(method_resp[0]);
        let method = text::hex_u8(method_resp[1]);
        Err(
            EcError::Runtime(
                "fallback proxy auth method unsupported: version=0x".to_owned().concat(
                    version.as_str(),
                ).concat(" method=0x").concat(method.as_str()),
            ),
        )
    }
}

/// A host as the address of a request: an IPv4 or IPv6 address in its bytes, anything else
/// as a domain of at most 255 bytes.
pub open spec fn address_bytes(host: Seq<char>) -> Option<Seq<u8>> {
    let h = text::trimmed(host);
    let name = vstd::utf8::encode_utf8(h);
    match addr::ipv4_text(h) {
        Some(ip) => Some(seq![SOCKS_ATYP_IPV4] + ip.bytes()),
        None => match addr::ipv6_text(h) {
            Some(groups) => Some(seq![SOCKS_ATYP_IPV6] + group_bytes(groups)),
            None => if h.len() == 0 || name.len() > 255 {
                None
            } else {
                Some(seq![SOCKS_ATYP_DOMAIN, name.len() as u8] + name)
            },
        },
    }
}

/// The sixteen bytes of eight groups, the high byte of each first.
pub open spec fn group_bytes(groups: Seq<u16>) -> Seq<u8> {
    Seq::new(
        16,
        |i: int|
            if i % 2 == 0 {
                (groups[i / 2] / 256) as u8
            } else {
                (groups[i / 2] % 256) as u8
            },
    )
}

/// The request to connect to a host and port.
pub open spec fn connect_request(host: Seq<char>, port: u16) -> Result<Seq<u8>, EcErrorView> {
    match address_bytes(host) {
        Some(a) => Ok(
            seq![SOCKS_VERSION_5, SOCKS_CMD_CONNECT, SOCKS_RSV] + a + socks_wire::port_bytes(port),
        ),
        None => Err(
            EcErrorView::Runtime("fallback proxy target domain is empty or too long"@),
        ),
    }
}

fn append_socks5_addr(buf: &mut Vec<u8>, host: &str) -> (r: EcResult<()>)
    ensures
        match address_bytes(host@) {
            Some(a) => r is Ok && final(buf)@ == old(buf)@ + a,
            None => {
                &&& r matches Err(e)
                &&& e@ == EcErrorView::Runtime(
                    "fallback proxy target domain is empty or too long"@,
                )
                &&& final(buf)@ == old(buf)@
            },
        },
{
    let ghost start = buf@;
    let cs = text::chars_of(host);
    let h = text::trim(cs.as_slice());
    match addr::parse_ipv4(h) {
        Some(ip) => {
            let o = ip.octets();
            buf.push(SOCKS_ATYP_IPV4);
            buf.push(o[0]);
            buf.push(o[1]);
            buf.push(o[2]);
            buf.push(o[3]);
            assert(buf@ =~= start + (seq![SOCKS_ATYP_IPV4] + ip.bytes()));
            return Ok(());
        },
        None => {},
    }
    match addr::parse_ipv6(h) {
        Some(ip) => {
            buf.push(SOCKS_ATYP_IPV6);
            let o = ip.octets();
            let mut body = slice_to_vec(o.as_slice());
            buf.append(&mut body);
            assert(ip.bytes() =~= group_bytes(ip.segments@));
            assert(buf@ =~= start + (seq![SOCKS_ATYP_IPV6] + ip.bytes()));
            return Ok(());
        },
        None => {},
    }
    let shown = text::text_of(h);
    let name = shown.as_str().as_bytes();
    if h.len() == 0 || name.len() > 255 {
        return Err(
            EcError::Runtime("fallback proxy target domain is empty or too long".to_owned()),
        );
    }
    buf.push(SOCKS_ATYP_DOMAIN);
    buf.push(name.len() as u8);
    let mut body = slice_to_vec(name);
    buf.append(&mut body);
    assert(buf@ =~= start + (seq![SOCKS_ATYP_DOMAIN, name@.len() as u8] + name@));
    Ok(())
}

/// The request to connect to a host and port.
pub fn write_socks5_connect_request(host: &str, port: u16) -> (r: EcResult<Vec<u8>>)
    ensures
        crate::error::shown(r) == connect_request(host@, port),
{
    let mut req: Vec<u8> = Vec::new();
    req.push(SOCKS_VERSION_5);
    req.push(SOCKS_CMD_CONNECT);
    req.push(SOCKS_RSV);
    assert(req@ =~= seq![SOCKS_VERSION_5, SOCKS_CMD_CONNECT, SOCKS_RSV]);
    match append_socks5_addr(&mut req, host) {
        Err(e) => Err(e),
        Ok(_) => {
            let ghost before = req@;
            req.push((port / 256) as u8);
            req.push((port % 256) as u8);
            assert(req@ =~= before + socks_wire::port_bytes(port));
            Ok(req)
        },
    }
}

/// A reply code in words.
pub open spec fn reply_name(code: u8) -> Seq<char> {
    match code {
        0u8 => "succeeded"@,
        1u8 => "general failure"@,
        2u8 => "connection not allowed"@,
        3u8 => "network unreachable"@,
        4u8 => "host unreachable"@,
        5u8 => "connection refused"@,
        6u8 => "ttl expired"@,
        7u8 => "command not supported"@,
        8u8 => "address type not supported"@,
        _ => "unknown reply code"@,
    }
}

/// A reply code in words.
pub fn socks5_reply_name(code: u8) -> (r: &'static str)
    ensures
        r@ == reply_name(code),
{
    match code {
        0u8 => "succeeded",
        1u8 => "general failure",
        2u8 => "connection not allowed",
        3u8 => "network unreachable",
        4u8 => "host unreachable",
        5u8 => "connection refused",
        6u8 => "ttl expired",
        7u8 => "command not supported",
        8u8 => "address type not supported",
        _ => "unknown reply code",
    }
}

/// What to do with the reply of a proxy, as far as it has been read.
#[derive(Debug)]
pub enum ReplyStep {
    /// Read that many bytes more; the label says what could not be read.
    Need { count: usize, label: &'static str },
    /// Give up.
    Failed(EcError),
    /// The proxy is connected.
    Done,
}

/// A step as plain values.
#[verifier::ext_equal]
pub ghost enum ReplyStepView {
    Need { count: int, label: Seq<char> },
    Failed(EcErrorView),
    Done,
}

impl View for ReplyStep {
    type V = ReplyStepView;

    open spec fn view(&self) -> ReplyStepView {
        match *self {
            ReplyStep::Need { count, label } => ReplyStepView::Need {
                count: count as int,
                label: label@,
            },
            ReplyStep::Failed(e) => ReplyStepView::Failed(e@),
            ReplyStep::Done => ReplyStepView::Done,
        }
    }
}

/// What remains of a reply whose address ends at `at`: two bytes of port.
pub open spec fn reply_port(data: Seq<u8>, at: int) -> ReplyStepView {
    if data.len() < at + 2 {
        ReplyStepView::Need { count: at + 2 - data.len(), label: "read proxy bind port failed"@ }
    } else {
        ReplyStepView::Done
    }
}

/// What the bound address of a reply, which begins at the fifth byte, means: it is read and
/// not used.
pub open spec fn reply_address(data: Seq<u8>) -> ReplyStepView {
    if data[3] == SOCKS_ATYP_IPV4 {
        if data.len() < 8 {
            ReplyStepView::Need { count: 8 - data.len(), label: "read proxy bind ipv4 failed"@ }
        } else {
            reply_port(data, 8)
        }
    } else if data[3] == SOCKS_ATYP_DOMAIN {
        if data.len() < 5 {
            ReplyStepView::Need {
                count: 5 - data.len(),
                label: "read proxy bind domain length failed"@,
            }
        } else if data.len() < 5 + data[4] {
            ReplyStepView::Need {
                count: 5 + data[4] - data.len(),
                label: "read proxy bind domain failed"@,
            }
        } else {
            reply_port(data, 5 + data[4])
        }
    } else if data[3] == SOCKS_ATYP_IPV6 {
        if data.len() < 20 {
            ReplyStepView::Need { count: 20 - data.len(), label: "read proxy bind ipv6 failed"@ }
        } else {
            reply_port(data, 20)
        }
    } else {
        ReplyStepView::Failed(
            EcErrorView::Runtime(
                "unsupported fallback proxy bind atyp: 0x"@ + text::hex_byte(data[3]),
            ),
        )
    }
}

/// What the reply that has been read so far means.
pub open spec fn reply_step(data: Seq<u8>) -> ReplyStepView {
    if data.len() < 4 {
        ReplyStepView::Need { count: 4 - data.len(), label: "proxy connect reply read failed"@ }
    } else if data[0] != SOCKS_VERSION_5 {
        ReplyStepView::Failed(
            EcErrorView::Runtime(
                "invalid fallback proxy reply version: 0x"@ + text::hex_byte(data[0]),
            ),
        )
    } else if data[1] != SOCKS_REP_SUCCEEDED {
        ReplyStepView::Failed(
            EcErrorView::Runtime(
                "fallback proxy connect rejected with code: 0x"@ + text::hex_byte(data[1]) + " ("@
                    + reply_name(data[1]) + ")"@,
            ),
        )
    } else {
        reply_address(data)
    }
}

fn consume_port(data: &[u8], at: usize) -> (r: ReplyStep)
    requires
        at <= data@.len(),
        at <= 300,
    ensures
        r@ == reply_port(data@, at as int),
{
    let n: usize = data.len();
    if n < at + 2 {
        ReplyStep::Need { count: at + 2 - n, label: "read proxy bind port failed" }
    } else {
        ReplyStep::Done
    }
}

fn consume_socks5_addr_and_port(data: &[u8]) -> (r: ReplyStep)
    requires
        data@.len() >= 4,
    ensures
        r@ == reply_address(data@),
{
    let n: usize = data.len();
    let atyp: u8 = data[3];
    if atyp == SOCKS_ATYP_IPV4 {
        if n < 8 {
            return ReplyStep::Need { count: 8 - n, label: "read proxy bind ipv4 failed" };
        }
        consume_port(data, 8)
    } else if atyp == SOCKS_ATYP_DOMAIN {
        if n < 5 {
            return ReplyStep::Need { count: 5 - n, label: "read proxy bind domain length failed" };
        }
        let end: usize = 5 + (data[4] as usize);
        if n < end {
            return ReplyStep::Need { count: end - n, label: "read proxy bind domain failed" };
        }
        consume_port(data, end)
    } else if atyp == SOCKS_ATYP_IPV6 {
        if n < 20 {
            return ReplyStep::Need { count: 20 - n, label: "read proxy bind ipv6 failed" };
        }
        consume_port(data, 20)
    } else {
        let code = text::hex_u8(atyp);
        ReplyStep::Failed(
            EcError::Runtime(
                "unsupported fallback proxy bind atyp: 0x".to_owned().concat(code.as_str()),
            ),
        )
    }
}

/// Takes the reply of a proxy as far as it has been read.
pub fn read_socks5_connect_reply(data: &[u8]) -> (r: ReplyStep)
    ensures
        r@ == reply_step(data@),
{
    let n: usize = data.len();
    if n < 4 {
        return ReplyStep::Need { count: 4 - n, label: "proxy connect reply read failed" };
    }
    if data[0] != SOCKS_VERSION_5 {
        let version = text::hex_u8(data[0]);
        return ReplyStep::Failed(
            EcError::Runtime(
                "invalid fallback proxy reply version: 0x".to_owned().concat(version.as_str()),
            ),
        );
    }
    if data[1] != SOCKS_REP_SUCCEEDED {
        let code = text::hex_u8(data[1]);
        return ReplyStep::Failed(
            EcError::Runtime(
                "fallback proxy connect rejected with code: 0x".to_owned().concat(
                    code.as_str(),
                ).concat(" (").concat(socks5_reply_name(data[1])).concat(")"),
            ),
        );
    }
    consume_socks5_addr_and_port(data)
}

// ---------------------------------------------------------------------------
// An HTTP proxy
// ---------------------------------------------------------------------------

/// The request to connect to a host and port.
pub open spec fn http_request(host: Seq<char>, port: u16) -> Seq<char> {
    let authority = socks_wire::socket_target(host, text::decimal(port as int));
    "CONNECT "@ + authority + " HTTP/1.1\r\nHost: "@ + authority
        + "\r\nConnection: keep-alive\r\nProxy-Connection: keep-alive\r\n\r\n"@
}

/// The request to connect to a host and port.
pub fn http_connect_request(host: &str, port: u16) -> (r: String)
    ensures
        r@ == http_request(host@, port),
{
    let p = text::decimal_u64(port as u64);
    let authority = socks_wire::format_socket_target(host, p.as_str());
    "CONNECT ".to_owned().concat(authority.as_str()).concat(" HTTP/1.1\r\nHost: ").concat(
        authority.as_str(),
    ).concat("\r\nConnection: keep-alive\r\nProxy-Connection: keep-alive\r\n\r\n")
}

/// What to do once a byte of the head of a reply has been read, or the stream has ended.
#[derive(Debug)]
pub enum HeadStep {
    /// Read another byte.
    More,
    /// The head is complete.
    Complete(String),
    /// Give up.
    Failed(EcError),
}

/// The head ends with an empty line.
pub open spec fn ends_head(buf: Seq<u8>) -> bool {
    buf.len() >= 4 && buf.skip(buf.len() - 4) == seq![13u8, 10, 13, 10]
}

/// Takes a byte of the head of a reply; none says that the stream has ended.
pub fn read_http_proxy_head(buf: &mut Vec<u8>, byte: Option<u8>) -> (r: HeadStep)
    ensures
        match byte {
            None => {
                &&& final(buf)@ == old(buf)@
                &&& r matches HeadStep::Failed(e)
                &&& e@ == EcErrorView::Runtime("http proxy connect reply is empty"@)
            },
            Some(b) => {
                let next = old(buf)@.push(b);
                &&& final(buf)@ == next
                &&& if ends_head(next) {
                    r matches HeadStep::Complete(head) && head@ == text::lossy_text(next)
                } else if next.len() > HTTP_PROXY_HEAD_MAX_SIZE {
                    r matches HeadStep::Failed(e) && e@ == EcErrorView::Runtime(
                        "http proxy connect reply header is too large"@,
                    )
                } else {
                    r is More
                }
            },
        },
{
    match byte {
        None => HeadStep::Failed(EcError::Runtime("http proxy connect reply is empty".to_owned())),
        Some(b) => {
            buf.push(b);
            let n: usize = buf.len();
            if n >= 4 && buf[n - 4] == 13 && buf[n - 3] == 10 && buf[n - 2] == 13 && buf[n - 1]
                == 10 {
                assert(buf@.skip(n - 4) =~= seq![13u8, 10, 13, 10]);
                return HeadStep::Complete(text::from_utf8_lossy(buf.as_slice()));
            }
            proof {
                if ends_head(buf@) {
                    let tail = buf@.skip(n - 4);
                    assert(tail[0] == buf@[n - 4] && tail[1] == buf@[n - 3] && tail[2] == buf@[n
                        - 2] && tail[3] == buf@[n - 1]);
                }
            }
            if n > HTTP_PROXY_HEAD_MAX_SIZE {
                return HeadStep::Failed(
                    EcError::Runtime("http proxy connect reply header is too large".to_owned()),
                );
            }
            HeadStep::More
        },
    }
}

/// The first line of a head, trimmed.
pub open spec fn status_line(head: Seq<char>) -> Seq<char> {
    text::trimmed(text::fields(head, '\n')[0])
}

/// The status code of a status line.
pub open spec fn status_code(line: Seq<char>) -> Option<u16> {
    let w = text::words(line);
    if w.len() < 2 {
        None
    } else {
        text::u16_text(w[1])
    }
}

/// Whether a head reports success, and if not, what it reports.
pub open spec fn head_failure(head: Seq<char>) -> Option<EcErrorView> {
    let line = status_line(head);
    if !"HTTP/"@.is_prefix_of(line) {
        Some(EcErrorView::Runtime("invalid http proxy connect reply: "@ + line))
    } else {
        match status_code(line) {
            None => Some(
                EcErrorView::Runtime("invalid http proxy connect status line: "@ + line),
            ),
            Some(code) => if code == 200 {
                None
            } else {
                Some(EcErrorView::Runtime("http proxy connect rejected: "@ + line))
            },
        }
    }
}

/// Takes the head of a reply: only status 200 is success.
pub fn ensure_http_connect_success(reply_head: &str) -> (r: EcResult<()>)
    ensures
        match head_failure(reply_head@) {
            None => r is Ok,
            Some(f) => r matches Err(e) && e@ == f,
        },
{
    let cs = text::chars_of(reply_head);
    let lines = text::split(cs.as_slice(), '\n');
    assert(text::views(lines@)[0] == lines@[0]@);
    let line = text::trim(lines[0].as_slice());
    let shown = text::text_of(line);
    let mark = text::chars_of("HTTP/");
    if !text::starts_with(line, mark.as_slice()) {
        return Err(
            EcError::Runtime(
                "invalid http proxy connect reply: ".to_owned().concat(shown.as_str()),
            ),
        );
    }
    let parts = text::split_whitespace(line);
    let code = if parts.len() < 2 {
        None
    } else {
        assert(text::views(parts@)[1] == parts@[1]@);
        text::parse_u16(parts[1].as_slice())
    };
    match code {
        None => Err(
            EcError::Runtime(
                "invalid http proxy connect status line: ".to_owned().concat(shown.as_str()),
            ),
        ),
        Some(code) => if code == 200 {
            Ok(())
        } else {
            Err(
                EcError::Runtime(
                    "http proxy connect rejected: ".to_owned().concat(shown.as_str()),
                ),
            )
        },
    }
}

// ---------------------------------------------------------------------------
// Laws
// ---------------------------------------------------------------------------

/// A host as it comes out of a request: an address in its usual form, any other host trimmed.
pub open spec fn canonical_host(host: Seq<char>) -> Seq<char> {
    let h = text::trimmed(host);
    match addr::ipv4_text(h) {
        Some(ip) => ip.text(),
        None => match addr::ipv6_text(h) {
            Some(groups) => addr::ipv6_display(groups),
            None => h,
        },
    }
}

/// What is written to ask a proxy for a host and port reads as a request to connect to them.
pub proof fn law_request_is_read_back(host: Seq<char>, port: u16)
    requires
        connect_request(host, port) is Ok,
    ensures
        socks_wire::request_step(connect_request(host, port)->Ok_0)
            == (socks_wire::RequestStepView::Done {
            command: socks_wire::SocksCommand::Connect,
            target: socks_wire::TargetView { host: canonical_host(host), port },
        }),
{
    let h = text::trimmed(host);
    let data = connect_request(host, port)->Ok_0;
    assert(data[0] == SOCKS_VERSION_5 && data[1] == SOCKS_CMD_CONNECT && data[2] == SOCKS_RSV);
    let n = data.len() - 2;
    assert(data[n] == (port / 256) as u8 && data[n + 1] == (port % 256) as u8);
    assert(socks_wire::port_at(data, n) == port);
    match addr::ipv4_text(h) {
        Some(ip) => {
            let b = ip.bytes();
            assert(data[3] == SOCKS_ATYP_IPV4);
            assert(data[4] == b[0] && data[5] == b[1] && data[6] == b[2] && data[7] == b[3]);
            addr::lemma_join_bytes(ip);
            assert(socks_wire::ipv4_at(data, 4) == ip);
        },
        None => match addr::ipv6_text(h) {
            Some(groups) => {
                addr::lemma_eight_groups(h);
                assert(data[3] == SOCKS_ATYP_IPV6);
                assert(socks_wire::groups_at(data, 4) =~= groups) by {
                    assert forall|k: int| 0 <= k < 8 implies socks_wire::groups_at(data, 4)[k]
                        == groups[k] by {
                        assert(data[4 + 2 * k] == group_bytes(groups)[2 * k]);
                        assert(data[4 + 2 * k + 1] == group_bytes(groups)[2 * k + 1]);
                        assert((2 * k) / 2 == k && (2 * k + 1) / 2 == k);
                        lemma_halves(groups[k]);
                    }
                }
            },
            None => {
                let name = vstd::utf8::encode_utf8(h);
                assert(data[3] == SOCKS_ATYP_DOMAIN);
                assert(data[4] == name.len() as u8);
                assert(data.subrange(5, 5 + data[4]) =~= name);
                vstd::utf8::encode_utf8_valid_utf8(h);
                vstd::utf8::encode_utf8_decode_utf8(h);
            },
        },
    }
}

proof fn lemma_halves(g: u16)
    ensures
        ((g / 256) as u8) * 256 + ((g % 256) as u8) == g,
{
}

/// The greeting that a proxy gets is one that a server accepts.
pub proof fn law_greeting_is_accepted(r: socks_wire::NegotiateStep)
    requires
        socks_wire::negotiation(seq![SOCKS_VERSION_5, 1u8, SOCKS_METHOD_NO_AUTH], r),
    ensures
        r is Accept,
{
    let data = seq![SOCKS_VERSION_5, 1u8, SOCKS_METHOD_NO_AUTH];
    assert(data.subrange(2, 3)[0] == SOCKS_METHOD_NO_AUTH);
}

/// The reply that a client gets reads as success exactly if it reports success.
pub proof fn law_reply_is_read_back(rep: u8, bound: addr::SocketAddrV4)
    ensures
        (reply_step(socks_wire::reply_bytes(rep, bound)) is Done) == (rep == SOCKS_REP_SUCCEEDED),
        rep != SOCKS_REP_SUCCEEDED ==> reply_step(socks_wire::reply_bytes(rep, bound)) is Failed,
{
    let data = socks_wire::reply_bytes(rep, bound);
    assert(data.len() == 10);
    assert(data[0] == SOCKS_VERSION_5 && data[1] == rep && data[3] == SOCKS_ATYP_IPV4);
}

/// The address that a proxy is shown with names the same proxy if it is given as a setting.
pub proof fn law_proxy_url_names_the_proxy(raw: Seq<char>, p: ProxyView)
    requires
        fallback_of(Some(raw)) == Ok::<Option<ProxyView>, EcErrorView>(Some(p)),
    ensures
        fallback_of(Some(p.url)) == Ok::<Option<ProxyView>, EcErrorView>(Some(p)),
{
    let t = text::trimmed(raw);
    text::law_trim_is_idempotent(raw);
    text::law_trim_is_idempotent(t);
    if text::first_text(t, "://"@) is None {
        lemma_scheme_letters("socks5h"@);
        lemma_scheme_is_found("socks5h"@, t);
        lemma_address_with_scheme("socks5h"@, t);
        assert(kind_of("socks5h"@) == Some(FallbackProxyKind::Socks5));
    }
}

/// The schemes that are spoken are letters and digits.
proof fn lemma_scheme_letters(scheme: Seq<char>)
    requires
        kind_of(scheme) is Some,
    ensures
        scheme.len() > 0,
        !text::is_white(scheme[0]),
        !scheme.contains(':'),
{
    reveal_strlit("socks5");
    reveal_strlit("socks5h");
    reveal_strlit("http");
}

proof fn lemma_address_with_scheme(scheme: Seq<char>, t: Seq<char>)
    requires
        scheme.len() > 0,
        !text::is_white(scheme[0]),
        t.len() > 0,
        !text::is_white(t.last()),
    ensures
        text::trimmed(scheme + "://"@ + t) == scheme + "://"@ + t,
{
    let url = scheme + "://"@ + t;
    assert(url[0] == scheme[0]);
    assert(url.last() == t.last());
    text::lemma_trimmed_already(url);
}

proof fn lemma_scheme_is_found(scheme: Seq<char>, t: Seq<char>)
    requires
        !scheme.contains(':'),
    ensures
        ({
            let url = scheme + "://"@ + t;
            let n = scheme.len() as int;
            &&& text::first_text(url, "://"@) == Some(n)
            &&& url.take(n) == scheme
            &&& url.skip(n + 3) == t
        }),
{
    reveal_strlit("://");
    let url = scheme + "://"@ + t;
    let mark = "://"@;
    let n = scheme.len() as int;
    assert(url.subrange(n, n + 3) =~= mark);
    assert forall|j: int| 0 <= j < n implies !text::occurs_at(url, mark, j) by {
        if text::occurs_at(url, mark, j) {
            assert(url.subrange(j, j + 3)[0] == mark[0]);
            assert(url[j] == scheme[j]);
        }
    }
    assert(text::is_first_text(url, mark, n));
    let k = choose|k: int| text::is_first_text(url, mark, k);
    assert(text::is_first_text(url, mark, k));
    assert(k == n);
    assert(url.take(n) =~= scheme);
    assert(url.skip(n + 3) =~= t);
}

/// The proxy that an address with a scheme in front names: what the scheme says, at the
/// address, and shown as it is typed.
pub proof fn law_schemes_say_what_a_proxy_speaks(
    scheme: Seq<char>,
    kind: FallbackProxyKind,
    a: Seq<char>,
)
    requires
        a.len() > 0,
        text::trimmed(a) == a,
        kind_of(scheme) == Some(kind),
    ensures
        fallback_of(Some(scheme + "://"@ + a)) == Ok::<Option<ProxyView>, EcErrorView>(
            Some(ProxyView { url: scheme + "://"@ + a, addr: a, kind }),
        ),
        kind_of("socks5"@) == Some(FallbackProxyKind::Socks5),
        kind_of("socks5h"@) == Some(FallbackProxyKind::Socks5),
        kind_of("http"@) == Some(FallbackProxyKind::Http),
{
    text::law_trim_is_idempotent(a);
    lemma_scheme_letters(scheme);
    lemma_scheme_is_found(scheme, a);
    lemma_address_with_scheme(scheme, a);
    reveal_strlit("socks5");
    reveal_strlit("socks5h");
    reveal_strlit("http");
    assert("http"@.len() != "socks5"@.len());
    assert("http"@.len() != "socks5h"@.len());
}

/// An address without a scheme names the SOCKS5 proxy at it, the same as with `socks5h://` in
/// front, and is shown like that.
pub proof fn law_plain_addresses_are_socks5h(a: Seq<char>)
    requires
        a.len() > 0,
        text::trimmed(a) == a,
        text::first_text(a, "://"@) is None,
    ensures
        fallback_of(Some(a)) == fallback_of(Some("socks5h"@ + "://"@ + a)),
        fallback_of(Some(a)) == Ok::<Option<ProxyView>, EcErrorView>(
            Some(
                ProxyView {
                    url: "socks5h"@ + "://"@ + a,
                    addr: a,
                    kind: FallbackProxyKind::Socks5,
                },
            ),
        ),
{
    law_schemes_say_what_a_proxy_speaks("socks5h"@, FallbackProxyKind::Socks5, a);
}

/// A scheme other than the three that are spoken is refused, in words that name the three.
pub proof fn law_other_schemes_are_refused(raw: Seq<char>, i: int)
    requires
        text::first_text(text::trimmed(raw), "://"@) == Some(i),
        text::trimmed(raw).take(i) != "socks5"@,
        text::trimmed(raw).take(i) != "socks5h"@,
        text::trimmed(raw).take(i) != "http"@,
    ensures
        fallback_of(Some(raw)) == Err::<Option<ProxyView>, EcErrorView>(
            EcErrorView::InvalidConfig(FALLBACK_SCHEME_ERROR@),
        ),
{
    text::law_trim_is_idempotent(raw);
    lemma_mark_is_there(text::trimmed(raw), i);
}

/// A scheme with a blank address behind it is refused.
pub proof fn law_blank_addresses_are_refused(raw: Seq<char>, i: int)
    requires
        text::first_text(text::trimmed(raw), "://"@) == Some(i),
        text::trimmed(text::trimmed(raw).skip(i + 3)).len() == 0,
    ensures
        fallback_of(Some(raw)) == Err::<Option<ProxyView>, EcErrorView>(
            EcErrorView::InvalidConfig(
                if kind_of(text::trimmed(raw).take(i)) is Some {
                    "fallback is invalid: empty proxy address"@
                } else {
                    FALLBACK_SCHEME_ERROR@
                },
            ),
        ),
{
    text::law_trim_is_idempotent(raw);
    text::law_trim_is_idempotent(text::trimmed(raw).skip(i + 3));
    lemma_mark_is_there(text::trimmed(raw), i);
}

proof fn lemma_mark_is_there(t: Seq<char>, i: int)
    requires
        text::first_text(t, "://"@) == Some(i),
    ensures
        t.len() > 0,
{
    reveal_strlit("://");
    assert(text::is_first_text(t, "://"@, i));
}

/// The bytes in which a proxy is asked to connect to an IPv4 address: version, command and a
/// zero, the mark of such an address, its four octets, and the port, the high byte first.
#[verifier::rlimit(40)]
pub proof fn law_address_request_in_bytes(a: u8, b: u8, c: u8, d: u8, port: u16)
    ensures
        ({
            let ip = addr::Ipv4Addr { bits: (16777216 * a + 65536 * b + 256 * c + d) as u32 };
            connect_request(ip.text(), port) == Ok::<Seq<u8>, EcErrorView>(
                seq![5u8, 1, 0, 1, a, b, c, d, (port / 256) as u8, (port % 256) as u8],
            )
        }),
{
    let ip = addr::Ipv4Addr { bits: (16777216 * a + 65536 * b + 256 * c + d) as u32 };
    addr::law_dotted_decimal(a, b, c, d);
    addr::law_ipv4_text_is_read_back(ip);
    addr::lemma_ipv4_is_no_socket(ip);
    text::lemma_trimmed_already(ip.text());
    assert(connect_request(ip.text(), port)->Ok_0 =~= seq![
        5u8,
        1,
        0,
        1,
        a,
        b,
        c,
        d,
        (port / 256) as u8,
        (port % 256) as u8,
    ]);
}

/// The same for an IPv6 address: its mark, and two bytes for each of its groups, the high byte
/// first.
#[verifier::rlimit(40)]
pub proof fn law_wide_address_request_in_bytes(groups: Seq<u16>, port: u16, k: int)
    requires
        groups.len() == 8,
        0 <= k < 8,
    ensures
        ({
            let r = connect_request(addr::ipv6_display(groups), port)->Ok_0;
            &&& connect_request(addr::ipv6_display(groups), port) is Ok
            &&& r.len() == 22
            &&& r.take(4) == seq![5u8, 1, 0, 4]
            &&& r.skip(20) == seq![(port / 256) as u8, (port % 256) as u8]
            &&& 256 * r[4 + 2 * k] + r[5 + 2 * k] == groups[k]
        }),
{
    let w = addr::ipv6_display(groups);
    addr::law_ipv6_text_is_read_back(groups);
    addr::lemma_ipv6_is_no_socket(groups);
    text::lemma_trimmed_already(w);
    let r = connect_request(w, port)->Ok_0;
    assert(r.take(4) =~= seq![5u8, 1, 0, 4]);
    assert(r.skip(20) =~= seq![(port / 256) as u8, (port % 256) as u8]);
    assert(r[4 + 2 * k] == group_bytes(groups)[2 * k]);
    assert(r[5 + 2 * k] == group_bytes(groups)[2 * k + 1]);
    assert((2 * k) / 2 == k && (2 * k + 1) / 2 == k);
    lemma_halves(groups[k]);
}

/// The same for any other host: its mark, the length of its name and the name, which has at
/// most 255 bytes.
pub proof fn law_named_request_in_bytes(name: Seq<char>, port: u16)
    requires
        name.len() > 0,
        !text::is_white(name[0]),
        !text::is_white(name.last()),
        addr::ipv4_text(name) is None,
        addr::ipv6_text(name) is None,
    ensures
        ({
            let bytes = vstd::utf8::encode_utf8(name);
            &&& bytes.len() <= 255 ==> connect_request(name, port) == Ok::<Seq<u8>, EcErrorView>(
                seq![5u8, 1, 0, 3, bytes.len() as u8] + bytes + seq![
                    (port / 256) as u8,
                    (port % 256) as u8,
                ],
            )
            &&& bytes.len() > 255 ==> connect_request(name, port) is Err
        }),
{
    let bytes = vstd::utf8::encode_utf8(name);
    text::lemma_trimmed_already(name);
    if bytes.len() <= 255 {
        assert(connect_request(name, port)->Ok_0 =~= seq![5u8, 1, 0, 3, bytes.len() as u8] + bytes
            + seq![(port / 256) as u8, (port % 256) as u8]);
    }
}

/// A host that is blank cannot be asked for.
pub proof fn law_blank_hosts_cannot_be_asked_for(blank: Seq<char>, port: u16)
    requires
        forall|i: int| 0 <= i < blank.len() ==> text::is_white(#[trigger] blank[i]),
    ensures
        connect_request(blank, port) is Err,
{
    let none = Seq::<char>::empty();
    text::law_trim_takes_white_space_off(blank, none, none);
    assert(blank + none + none =~= blank);
    text::lemma_one_field(none, '.');
    addr::lemma_nothing_is_no_ipv6(none);
}

/// A proxy is connected once its reply has come in full, with code zero: ten bytes with an IPv4
/// address, twenty-two with an IPv6 address, and seven and the length of the name with a name.
/// Until then as many bytes are asked for as the part being read lacks, and any other code, or
/// another version, is a failure.
pub proof fn law_replies_are_read_to_their_end(data: Seq<u8>)
    ensures
        ({
            let step = reply_step(data);
            let full = if data[3] == 1 {
                10int
            } else if data[3] == 3 {
                if data.len() < 5 {
                    7
                } else {
                    7 + data[4]
                }
            } else {
                22
            };
            &&& data.len() < 4 ==> (step matches ReplyStepView::Need { count, .. } && count + data.len()
                == 4)
            &&& data.len() >= 4 && data[0] != 5 ==> step is Failed
            &&& data.len() >= 4 && data[1] != 0 ==> step is Failed
            &&& data.len() >= 4 && data[3] != 1 && data[3] != 3 && data[3] != 4 ==> step is Failed
            &&& data.len() >= 4 && data[0] == 5 && data[1] == 0 && (data[3] == 1 || data[3] == 3
                || data[3] == 4) ==> {
                &&& step is Done <==> data.len() >= full
                &&& data.len() < full ==> (step matches ReplyStepView::Need { count, .. } && 0
                    < count && data.len() + count <= full)
            }
        }),
{
}

/// A reply to a request over HTTP is success if and only if the status behind the version is
/// 200, whatever follows it.
#[verifier::rlimit(40)]
pub proof fn law_status_200_is_success(
    version: Seq<char>,
    code: u16,
    tail: Seq<char>,
    rest: Seq<char>,
)
    requires
        forall|i: int| 0 <= i < version.len() ==> !text::is_white(#[trigger] version[i]),
        tail.len() > 0 ==> tail[0] == ' ' && !text::is_white(tail.last()) && !tail.contains('\n'),
    ensures
        head_failure(
            "HTTP/"@ + version + " "@ + text::decimal(code as int) + tail + "\r\n"@ + rest,
        ) is None <==> code == 200,
{
    reveal_strlit("HTTP/");
    reveal_strlit(" ");
    reveal_strlit("\r\n");
    let d = text::decimal(code as int);
    let first = "HTTP/"@ + version;
    let line = first + " "@ + d + tail;
    let head = line + "\r\n"@ + rest;
    let none = Seq::<char>::empty();
    text::law_digits_are_read_back(code as nat, 10);
    assert forall|i: int| 0 <= i < d.len() implies !text::is_white(#[trigger] d[i]) by {
        assert(text::is_digit(d[i]));
    }
    assert forall|i: int| 0 <= i < first.len() implies !text::is_white(#[trigger] first[i]) by {
        if i >= 5 {
            assert(first[i] == version[i - 5]);
        }
    }
    let ended = line.push('\r');
    assert(!ended.contains('\n')) by {
        if ended.contains('\n') {
            let i = choose|i: int| 0 <= i < ended.len() && ended[i] == '\n';
            let n = first.len() as int;
            if i < n {
                assert(text::is_white(first[i]));
            } else if n < i <= n + d.len() {
                assert(text::is_white(d[i - n - 1]));
            } else if n + d.len() < i < line.len() {
                assert(tail[i - n - 1 - d.len()] == '\n');
            }
        }
    }
    assert(head =~= ended.push('\n') + rest);
    text::law_fields_of_both_sides(ended, '\n', rest);
    assert(text::fields(head, '\n')[0] == ended);
    assert(line[0] == 'H');
    assert(line.last() == if tail.len() > 0 {
        tail.last()
    } else {
        d[d.len() - 1]
    });
    let cr = seq!['\r'];
    text::law_trim_takes_white_space_off(none, line, cr);
    assert(none + line + cr =~= ended);
    assert(status_line(head) == line);
    assert("HTTP/"@.is_prefix_of(line)) by {
        assert(line.take(5) =~= "HTTP/"@);
    }
    let behind = d + tail;
    assert(line =~= first.push(' ') + behind);
    text::law_words_of_both_sides(first, ' ', behind);
    if tail.len() > 0 {
        assert(behind =~= d.push(' ') + tail.skip(1));
        text::law_words_of_both_sides(d, ' ', tail.skip(1));
    } else {
        assert(behind =~= d);
        text::law_words_of_both_sides(d, ' ', none);
    }
    assert(text::words(line)[1] == d);
    text::law_integers_are_read_back(code as int, 0, 65535);
    assert(head =~= "HTTP/"@ + version + " "@ + d + tail + "\r\n"@ + rest);
}

/// A reply that does not begin with the name of the protocol is a failure.
pub proof fn law_other_protocols_are_refused(head: Seq<char>)
    requires
        head.len() > 0,
        head[0] != 'H',
        !text::is_white(head[0]),
    ensures
        head_failure(head) is Some,
{
    reveal_strlit("HTTP/");
    let f = text::fields(head, '\n');
    lemma_first_field_begins(head, '\n');
    lemma_trimmed_begins(f[0]);
    if "HTTP/"@.is_prefix_of(status_line(head)) {
        assert(status_line(head)[0] == "HTTP/"@[0]);
    }
}

proof fn lemma_first_field_begins(s: Seq<char>, c: char)
    requires
        s.len() > 0,
        s[0] != c,
    ensures
        text::fields(s, c).len() > 0,
        text::fields(s, c)[0].len() > 0,
        text::fields(s, c)[0][0] == s[0],
    decreases s.len(),
{
    let rest = s.drop_last();
    if s.len() == 1 {
        assert(rest =~= Seq::empty());
        let before = text::fields(rest, c);
        assert(before == seq![Seq::<char>::empty()]);
        assert(text::fields(s, c)[0] == before.last().push(s.last()));
    } else {
        lemma_first_field_begins(rest, c);
        let before = text::fields(rest, c);
        if s.last() != c && before.len() == 1 {
            assert(text::fields(s, c)[0] == before[0].push(s.last()));
        } else {
            assert(text::fields(s, c)[0] == before[0]);
        }
    }
}

proof fn lemma_trimmed_begins(s: Seq<char>)
    requires
        s.len() > 0,
        !text::is_white(s[0]),
    ensures
        text::trimmed(s).len() > 0 ==> text::trimmed(s)[0] == s[0],
{
    lemma_trim_end_begins(s);
}

proof fn lemma_trim_end_begins(s: Seq<char>)
    requires
        s.len() > 0,
    ensures
        text::trim_end(s).len() > 0 ==> text::trim_end(s)[0] == s[0],
    decreases s.len(),
{
    if text::is_white(s.last()) && s.len() > 1 {
        lemma_trim_end_begins(s.drop_last());
    } else if text::is_white(s.last()) {
        assert(text::trim_end(s.drop_last()) =~= s.drop_last());
    }
}

/// The head of a reply ends with an empty line, wherever it comes, and not before.
pub proof fn law_heads_end_with_an_empty_line(a: Seq<u8>, b: u8)
    ensures
        ends_head(a + seq![13u8, 10, 13, 10]),
        b != 10 ==> !ends_head(a.push(b)),
{
    let s = a + seq![13u8, 10, 13, 10];
    assert(s.skip(s.len() - 4) =~= seq![13u8, 10, 13, 10]);
    let t = a.push(b);
    if ends_head(t) {
        assert(t.skip(t.len() - 4)[3] == t[t.len() - 1]);
    }
}

/// The request to an HTTP proxy is made of these lines: the target, twice, the wish to keep the
/// connection, and an empty one.
#[verifier::rlimit(40)]
pub proof fn law_http_request_names_the_target(host: Seq<char>, port: u16)
    requires
        !host.contains('\n'),
        host.len() > 0 ==> !text::is_white(host[0]) && !text::is_white(host.last()),
        addr::ipv6_text(host) is None,
    ensures
        ({
            let target = host + ":"@ + text::decimal(port as int);
            text::fields(http_request(host, port), '\n') == seq![
                "CONNECT "@ + target + " HTTP/1.1\r"@,
                "Host: "@ + target + "\r"@,
                "Connection: keep-alive\r"@,
                "Proxy-Connection: keep-alive\r"@,
                "\r"@,
                Seq::empty(),
            ]
        }),
{
    reveal_strlit("CONNECT ");
    reveal_strlit(" HTTP/1.1\r\nHost: ");
    reveal_strlit("\r\nConnection: keep-alive\r\nProxy-Connection: keep-alive\r\n\r\n");
    reveal_strlit(" HTTP/1.1\r");
    reveal_strlit("Host: ");
    reveal_strlit("\r");
    reveal_strlit("Connection: keep-alive\r");
    reveal_strlit("Proxy-Connection: keep-alive\r");
    reveal_strlit(":");
    let target = host + ":"@ + text::decimal(port as int);
    text::lemma_trimmed_already(host);
    text::lemma_digits_lack(port as nat, 10, '\n');
    text::lemma_framed_lacks(host, ":"@, text::decimal(port as int), '\n');
    text::lemma_framed_lacks("CONNECT "@, target, " HTTP/1.1\r"@, '\n');
    text::lemma_framed_lacks("Host: "@, target, "\r"@, '\n');
    let a = "CONNECT "@ + target + " HTTP/1.1\r"@;
    let b = "Host: "@ + target + "\r"@;
    let c = "Connection: keep-alive\r"@;
    let d = "Proxy-Connection: keep-alive\r"@;
    let e = "\r"@;
    let none = Seq::<char>::empty();
    let e5 = e.push('\n') + none;
    let e4 = d.push('\n') + e5;
    let e3 = c.push('\n') + e4;
    let e2 = b.push('\n') + e3;
    assert(http_request(host, port) =~= a.push('\n') + e2);
    text::law_fields_of_both_sides(a, '\n', e2);
    text::law_fields_of_both_sides(b, '\n', e3);
    text::law_fields_of_both_sides(c, '\n', e4);
    text::law_fields_of_both_sides(d, '\n', e5);
    text::law_fields_of_both_sides(e, '\n', none);
    text::law_fields_of_both_sides(none, '\n', none);
    assert(text::fields(http_request(host, port), '\n') =~= seq![a, b, c, d, e, none]);
}

/// In the request to an HTTP proxy an IPv6 address stands in brackets.
#[verifier::rlimit(40)]
pub proof fn law_http_request_puts_ipv6_in_brackets(groups: Seq<u16>, port: u16)
    requires
        groups.len() == 8,
    ensures
        ("CONNECT ["@ + addr::ipv6_display(groups) + "]:"@ + text::decimal(port as int)
            + " HTTP/1.1\r\n"@).is_prefix_of(http_request(addr::ipv6_display(groups), port)),
{
    reveal_strlit("CONNECT [");
    reveal_strlit("CONNECT ");
    reveal_strlit("[");
    reveal_strlit(" HTTP/1.1\r\n");
    reveal_strlit(" HTTP/1.1\r\nHost: ");
    let w = addr::ipv6_display(groups);
    addr::law_ipv6_text_is_read_back(groups);
    addr::lemma_ipv6_is_no_socket(groups);
    text::lemma_trimmed_already(w);
    let p = text::decimal(port as int);
    let target = "["@ + w + "]:"@ + p;
    let first = " HTTP/1.1\r\n"@;
    reveal_strlit("Host: ");
    assert(" HTTP/1.1\r\nHost: "@ =~= first + "Host: "@);
    assert("CONNECT ["@ =~= "CONNECT "@ + "["@);
    assert("CONNECT ["@ + w + "]:"@ + p + first =~= "CONNECT "@ + target + first);
    lemma_longer_text(
        "CONNECT "@,
        target,
        first,
        "Host: "@,
        target,
        "\r\nConnection: keep-alive\r\nProxy-Connection: keep-alive\r\n\r\n"@,
    );
}

proof fn lemma_longer_text(
    a: Seq<char>,
    b: Seq<char>,
    c: Seq<char>,
    d: Seq<char>,
    e: Seq<char>,
    f: Seq<char>,
)
    ensures
        (a + b + c).is_prefix_of(a + b + (c + d) + e + f),
{
    let s = a + b + c;
    assert((a + b + (c + d) + e + f).take(s.len() as int) =~= s);
}

/// A proxy that is named with a scheme has one of the three that are spoken, in small letters;
/// only the third is HTTP.
#[verifier::rlimit(40)]
pub proof fn law_three_schemes_are_spoken(scheme: Seq<char>, a: Seq<char>)
    requires
        text::first_text(scheme + "://"@ + a, "://"@) == Some(scheme.len() as int),
        text::trimmed(scheme + "://"@ + a) == scheme + "://"@ + a,
        fallback_of(Some(scheme + "://"@ + a)) is Ok,
    ensures
        scheme == "socks5"@ || scheme == "socks5h"@ || scheme == "http"@,
        fallback_of(Some(scheme + "://"@ + a)) matches Ok(Some(p)) ==> (p.kind
            == FallbackProxyKind::Http <==> scheme == "http"@),
{
    reveal_strlit("socks5");
    reveal_strlit("socks5h");
    reveal_strlit("http");
    reveal_strlit("://");
    let raw = scheme + "://"@ + a;
    assert(raw.take(scheme.len() as int) =~= scheme);
    assert("http"@.len() != "socks5"@.len());
    assert("http"@.len() != "socks5h"@.len());
    assert(raw.len() > 0);
}

/// A reply to a request over HTTP without a status, or with one that is no number, is a failure.
#[verifier::rlimit(40)]
pub proof fn law_replies_need_a_status(version: Seq<char>, word: Seq<char>, rest: Seq<char>)
    requires
        forall|i: int| 0 <= i < version.len() ==> !text::is_white(#[trigger] version[i]),
        forall|i: int| 0 <= i < word.len() ==> !text::is_white(#[trigger] word[i]),
        word.len() > 0,
        text::u16_text(word) is None,
    ensures
        head_failure("HTTP/"@ + version + "\r\n"@ + rest) is Some,
        head_failure("HTTP/"@ + version + " "@ + word + "\r\n"@ + rest) is Some,
{
    reveal_strlit("HTTP/");
    reveal_strlit(" ");
    reveal_strlit("\r\n");
    let none = Seq::<char>::empty();
    let first = "HTTP/"@ + version;
    assert forall|i: int| 0 <= i < first.len() implies !text::is_white(#[trigger] first[i]) by {
        if i >= 5 {
            assert(first[i] == version[i - 5]);
        }
    }
    let both = first + " "@ + word;
    assert(both =~= first.push(' ') + word);
    text::law_words_of_both_sides(first, ' ', word);
    text::law_words_of_both_sides(word, ' ', none);
    text::law_words_of_both_sides(first, ' ', none);
    assert(!first.contains('\n')) by {
        if first.contains('\n') {
            let i = choose|i: int| 0 <= i < first.len() && first[i] == '\n';
            assert(text::is_white(first[i]));
        }
    }
    assert(!word.contains('\n')) by {
        if word.contains('\n') {
            let i = choose|i: int| 0 <= i < word.len() && word[i] == '\n';
            assert(text::is_white(word[i]));
        }
    }
    text::lemma_framed_lacks(first, " "@, word, '\n');
    assert(first[0] == 'H' && both[0] == 'H');
    assert(!text::is_white(first[first.len() - 1]));
    assert(both.last() == word[word.len() - 1]);
    lemma_status_line(first, rest);
    lemma_status_line(both, rest);
    assert(text::words(both)[1] == word);
}

proof fn lemma_status_line(line: Seq<char>, rest: Seq<char>)
    requires
        line.len() > 0,
        !line.contains('\n'),
        !text::is_white(line[0]),
        !text::is_white(line.last()),
    ensures
        status_line(line + "\r\n"@ + rest) == line,
{
    reveal_strlit("\r\n");
    let none = Seq::<char>::empty();
    let ended = line.push('\r');
    let head = line + "\r\n"@ + rest;
    assert(!ended.contains('\n')) by {
        if ended.contains('\n') {
            let i = choose|i: int| 0 <= i < ended.len() && ended[i] == '\n';
            assert(line[i] == '\n');
        }
    }
    assert(head =~= ended.push('\n') + rest);
    text::law_fields_of_both_sides(ended, '\n', rest);
    assert(text::fields(head, '\n')[0] == ended);
    text::law_trim_takes_white_space_off(none, line, seq!['\r']);
    assert(none + line + seq!['\r'] =~= ended);
}

} // verus!
