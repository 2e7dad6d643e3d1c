//! The server address that a user types: scheme, authority, host and port.

use vstd::prelude::*;
use vstd::slice::slice_subrange;
use crate::error;
use crate::error::{EcError, EcErrorView, EcResult};
use crate::text;

verus! {

/// The port of a server that names none.
pub const DEFAULT_TLS_PORT: u16 = 443;

/// `server` behind its HTTP scheme, if it has one.
pub open spec fn without_scheme(server: Seq<char>) -> Seq<char> {
    if "https://"@.is_prefix_of(server) {
        server.skip("https://"@.len() as int)
    } else if "http://"@.is_prefix_of(server) {
        server.skip("http://"@.len() as int)
    } else {
        server
    }
}

/// What stands behind the last colon, or, where the authority begins with a bracket, behind
/// the last colon that follows a closing bracket.
pub open spec fn port_candidate(authority: Seq<char>) -> Option<Seq<char>> {
    if authority.len() > 0 && authority[0] == '[' {
        match text::last_text(authority, "]:"@) {
            Some(i) => Some(authority.skip(i + 2)),
            None => None,
        }
    } else {
        match text::last_of(authority, ':') {
            Some(i) => Some(authority.skip(i + 1)),
            None => None,
        }
    }
}

/// The authority ends in a port number.
pub open spec fn names_port(authority: Seq<char>) -> bool {
    port_candidate(authority) matches Some(p) && text::u16_text(p) is Some
}

/// Where a port would stand there is something, whatever it is.
pub open spec fn has_port_text(authority: Seq<char>) -> bool {
    port_candidate(authority) matches Some(p) && p.len() > 0
}

/// The authority with a port: its own, or the default one.
pub open spec fn authority_of(authority: Seq<char>) -> Result<Seq<char>, EcErrorView> {
    if names_port(authority) {
        Ok(authority)
    } else if has_port_text(authority) {
        Err(EcErrorView::InvalidConfig("invalid server port"@))
    } else {
        Ok(authority + ":"@ + text::decimal(DEFAULT_TLS_PORT as int))
    }
}

/// The host part of an authority.
pub open spec fn host_of(authority: Seq<char>) -> Result<Seq<char>, EcErrorView> {
    if authority.len() > 0 && authority[0] == '[' {
        match text::first_of(authority, ']') {
            Some(end) => Ok(authority.subrange(1, end)),
            None => Err(EcErrorView::Runtime("invalid ipv6 authority format"@)),
        }
    } else {
        match text::last_of(authority, ':') {
            Some(i) => if i == 0 {
                Err(EcErrorView::Runtime("invalid host in server authority"@))
            } else {
                Ok(authority.take(i))
            },
            None => Ok(authority),
        }
    }
}

/// What the user typed, up to the first slash behind the scheme.
pub open spec fn raw_authority(server: Seq<char>) -> Seq<char> {
    text::fields(without_scheme(text::trimmed(server)), '/')[0]
}

/// The authority to connect to and the host to ask for.
pub open spec fn endpoint_of(server: Seq<char>) -> Result<
    (Seq<char>, Seq<char>),
    EcErrorView,
> {
    if text::trimmed(server).len() == 0 {
        Err(EcErrorView::InvalidConfig("server is required"@))
    } else if raw_authority(server).len() == 0 {
        Err(EcErrorView::Runtime("invalid server authority"@))
    } else {
        match authority_of(raw_authority(server)) {
            Err(e) => Err(e),
            Ok(authority) => match host_of(authority) {
                Err(e) => Err(e),
                Ok(host) => Ok((authority, host)),
            },
        }
    }
}

/// The authority to connect to and the host to ask for.
pub fn parse_server(server: &str) -> (r: EcResult<(String, String)>)
    ensures
        error::shown(r) == endpoint_of(server@),
{
    let cs = text::chars_of(server);
    let trimmed = text::trim(cs.as_slice());
    if trimmed.len() == 0 {
        return Err(EcError::InvalidConfig("server is required"));
    }
    let parts = text::split(strip_http_scheme(trimmed), '/');
    assert(text::views(parts@)[0] == parts@[0]@);
    let raw = parts[0].as_slice();
    if raw.len() == 0 {
        return Err(EcError::Runtime("invalid server authority".to_owned()));
    }
    let raw_text = text::text_of(raw);
    match normalize_authority(raw_text.as_str()) {
        Err(e) => Err(e),
        Ok(authority) => match extract_host(authority.as_str()) {
            Err(e) => Err(e),
            Ok(host) => Ok((authority, host)),
        },
    }
}

/// `server` behind its HTTP scheme, if it has one.
pub fn strip_http_scheme(server: &[char]) -> (r: &[char])
    ensures
        r@ == without_scheme(server@),
{
    let secure = text::chars_of("https://");
    let plain = text::chars_of("http://");
    if text::starts_with(server, secure.as_slice()) {
        text::skip(server, secure.len())
    } else if text::starts_with(server, plain.as_slice()) {
        text::skip(server, plain.len())
    } else {
        server
    }
}

/// The authority with a port: its own, or the default one.
pub fn normalize_authority(authority: &str) -> (r: EcResult<String>)
    ensures
        error::shown(r) == authority_of(authority@),
{
    if has_explicit_port(authority) {
        return Ok(authority.to_owned());
    }
    if looks_like_malformed_port(authority) {
        return Err(EcError::InvalidConfig("invalid server port"));
    }
    let port = text::decimal_u64(DEFAULT_TLS_PORT as u64);
    Ok(authority.to_owned().concat(":").concat(port.as_str()))
}

/// Whether the authority ends in a port number.
pub fn has_explicit_port(authority: &str) -> (r: bool)
    ensures
        r == names_port(authority@),
{
    let cs = text::chars_of(authority);
    match authority_port_candidate(cs.as_slice()) {
        Some(port) => text::parse_u16(port).is_some(),
        None => false,
    }
}

fn looks_like_malformed_port(authority: &str) -> (r: bool)
    ensures
        r == has_port_text(authority@),
{
    let cs = text::chars_of(authority);
    match authority_port_candidate(cs.as_slice()) {
        Some(port) => port.len() > 0,
        None => false,
    }
}

fn authority_port_candidate(authority: &[char]) -> (r: Option<&[char]>)
    ensures
        match r {
            Some(p) => port_candidate(authority@) == Some(p@),
            None => port_candidate(authority@) is None,
        },
{
    let n: usize = authority.len();
    if n > 0 && authority[0] == '[' {
        let mark = text::chars_of("]:");
        proof {
            reveal_strlit("]:");
        }
        match text::rfind_text(authority, mark.as_slice()) {
            Some(i) => {
                assert(text::occurs_at(authority@, mark@, i as int));
                Some(text::skip(authority, i + 2))
            },
            None => None,
        }
    } else {
        match text::rfind(authority, ':') {
            Some(i) => Some(text::behind(authority, i)),
            None => None,
        }
    }
}

/// The host part of an authority.
pub fn extract_host(authority: &str) -> (r: EcResult<String>)
    ensures
        error::shown(r) == host_of(authority@),
{
    let cs = text::chars_of(authority);
    let a = cs.as_slice();
    if a.len() > 0 && a[0] == '[' {
        match text::find(a, ']') {
            Some(end) => Ok(text::text_of(slice_subrange(a, 1, end))),
            None => Err(EcError::Runtime("invalid ipv6 authority format".to_owned())),
        }
    } else {
        match text::rfind(a, ':') {
            Some(i) => if i == 0 {
                Err(EcError::Runtime("invalid host in server authority".to_owned()))
            } else {
                Ok(text::text_of(text::take(a, i)))
            },
            None => Ok(authority.to_owned()),
        }
    }
}

// ---------------------------------------------------------------------------
// Laws
// ---------------------------------------------------------------------------

/// A server that names no port, and no address in brackets, gets the default port.
pub proof fn law_default_port_is_added(server: Seq<char>)
    requires
        raw_authority(server).len() > 0,
        text::trimmed(server).len() > 0,
        raw_authority(server)[0] != '[',
        !raw_authority(server).contains(':'),
    ensures
        endpoint_of(server) == Ok::<(Seq<char>, Seq<char>), EcErrorView>(
            (
                raw_authority(server) + ":"@ + text::decimal(DEFAULT_TLS_PORT as int),
                raw_authority(server),
            ),
        ),
{
    let raw = raw_authority(server);
    let a = raw + ":"@ + text::decimal(DEFAULT_TLS_PORT as int);
    assert forall|i: int| !text::is_last(raw, ':', i) by {
        if text::is_last(raw, ':', i) {
            assert(raw.contains(':'));
        }
    }
    reveal_strlit(":");
    text::lemma_digits_lack(DEFAULT_TLS_PORT as nat, 10, ':');
    assert(text::is_last(a, ':', raw.len() as int)) by {
        assert forall|j: int| raw.len() < j < a.len() implies a[j] != ':' by {
            assert(a[j] == text::decimal(DEFAULT_TLS_PORT as int)[j - raw.len() - 1]);
        }
    }
    text::lemma_last_of(a, ':', raw.len() as int);
    assert(a.take(raw.len() as int) =~= raw);
}

/// A port that is named is kept, and so is everything in front of it.
pub proof fn law_explicit_port_is_kept(server: Seq<char>)
    requires
        names_port(raw_authority(server)),
        endpoint_of(server) is Ok,
    ensures
        endpoint_of(server)->Ok_0.0 == raw_authority(server),
        host_of(raw_authority(server)) == Ok::<Seq<char>, EcErrorView>(
            endpoint_of(server)->Ok_0.1,
        ),
{
}

/// An authority that names its port leads to itself again, unless it begins with white
/// space.
pub proof fn law_authority_is_stable(server: Seq<char>)
    requires
        endpoint_of(server) is Ok,
        names_port(endpoint_of(server)->Ok_0.0),
        !text::is_white(endpoint_of(server)->Ok_0.0[0]),
    ensures
        endpoint_of(endpoint_of(server)->Ok_0.0) == endpoint_of(server),
{
    let raw = raw_authority(server);
    let a = endpoint_of(server)->Ok_0.0;
    let all = without_scheme(text::trimmed(server));
    text::lemma_fields_lack(all, '/');
    assert(!raw.contains('/'));
    assert(!a.contains('/')) by {
        if a.contains('/') {
            let i = choose|i: int| 0 <= i < a.len() && a[i] == '/';
            if !names_port(raw) {
                reveal_strlit(":");
                text::lemma_digits_lack(DEFAULT_TLS_PORT as nat, 10, '/');
                if i < raw.len() {
                    assert(raw[i] == '/');
                } else if i > raw.len() {
                    assert(a[i] == text::decimal(DEFAULT_TLS_PORT as int)[i - raw.len() - 1]);
                }
            }
        }
    }
    lemma_port_ends_black(a);
    text::lemma_trimmed_already(a);
    assert(without_scheme(a) == a) by {
        reveal_strlit("https://");
        reveal_strlit("http://");
        if "https://"@.is_prefix_of(a) {
            assert(a[6] == "https://"@[6]);
            assert(a.contains('/'));
        }
        if "http://"@.is_prefix_of(a) {
            assert(a[5] == "http://"@[5]);
            assert(a.contains('/'));
        }
    }
    text::lemma_one_field(a, '/');
    assert(raw_authority(a) == a);
}

proof fn lemma_port_ends_black(a: Seq<char>)
    requires
        names_port(a),
    ensures
        a.len() > 0,
        !text::is_white(a.last()),
{
    let p = port_candidate(a)->0;
    text::lemma_integer_ends_black(p, 0, 65535);
    if a.len() > 0 && a[0] == '[' {
        let i = text::last_text(a, "]:"@)->0;
        assert(text::is_last_text(a, "]:"@, i));
        reveal_strlit("]:");
        assert(p.last() == a.last());
    } else {
        let i = text::last_of(a, ':')->0;
        assert(text::is_last(a, ':', i));
        assert(p.last() == a.last());
    }
}

#[verifier::rlimit(40)]
pub(crate) proof fn lemma_scheme_is_stripped(scheme: Seq<char>, host: Seq<char>, path: Seq<char>)
    requires
        scheme.len() == 0 || scheme == "http://"@ || scheme == "https://"@,
        !host.contains('/'),
        host.len() > 0,
        scheme.len() == 0 && path.len() > 1 && path[1] == '/' ==> host != "http:"@ && host
            != "https:"@,
        path.len() > 0 ==> path[0] == '/',
    ensures
        without_scheme(scheme + host + path) == host + path,
{
    reveal_strlit("https://");
    reveal_strlit("http://");
    reveal_strlit("https:");
    reveal_strlit("http:");
    let s = scheme + host + path;
    if scheme.len() == 0 {
        assert(s =~= host + path);
        if "https://"@.is_prefix_of(s) {
            lemma_first_slash(host, path, "https://"@, 6);
            assert(host =~= "https:"@);
            assert("https://"@[7] == '/');
            assert(s[7] == "https://"@[7]);
            assert(s[7] == path[1]);
        }
        if "http://"@.is_prefix_of(s) {
            lemma_first_slash(host, path, "http://"@, 5);
            assert(host =~= "http:"@);
            assert("http://"@[6] == '/');
            assert(s[6] == "http://"@[6]);
            assert(s[6] == path[1]);
        }
    } else if scheme == "https://"@ {
        assert(s.take(8) =~= "https://"@);
        assert("https://"@.is_prefix_of(s));
        assert(s.skip(8) =~= host + path);
    } else {
        assert(s.take(7) =~= "http://"@);
        assert("http://"@.is_prefix_of(s));
        assert(s[4] == ':');
        if "https://"@.is_prefix_of(s) {
            assert(s[4] == "https://"@[4]);
        }
        assert(s.skip(7) =~= host + path);
    }
}

proof fn lemma_first_slash(host: Seq<char>, path: Seq<char>, prefix: Seq<char>, n: int)
    requires
        !host.contains('/'),
        path.len() > 0 ==> path[0] == '/',
        prefix.is_prefix_of(host + path),
        0 <= n < prefix.len(),
        prefix[n] == '/',
        forall|j: int| 0 <= j < n ==> prefix[j] != '/',
    ensures
        host == prefix.take(n),
{
    let s = host + path;
    assert(s[n] == prefix[n]);
    if n < host.len() {
        assert(host[n] == '/');
    }
    if host.len() < n {
        assert(s[host.len() as int] == path[0]);
        assert(s[host.len() as int] == prefix[host.len() as int]);
    }
    assert(host =~= prefix.take(n));
}

#[verifier::rlimit(40)]
proof fn lemma_authority_is_found(
    w: Seq<char>,
    scheme: Seq<char>,
    authority: Seq<char>,
    path: Seq<char>,
    v: Seq<char>,
)
    requires
        forall|i: int| 0 <= i < w.len() ==> text::is_white(#[trigger] w[i]),
        forall|i: int| 0 <= i < v.len() ==> text::is_white(#[trigger] v[i]),
        scheme.len() == 0 || scheme == "http://"@ || scheme == "https://"@,
        !authority.contains('/'),
        authority.len() > 0,
        authority != "http:"@,
        authority != "https:"@,
        !text::is_white(authority[0]),
        !text::is_white(authority.last()),
        path.len() > 0 ==> path[0] == '/' && !text::is_white(path.last()),
    ensures
        raw_authority(w + scheme + authority + path + v) == authority,
        text::trimmed(w + scheme + authority + path + v).len() > 0,
{
    reveal_strlit("http://");
    reveal_strlit("https://");
    let core = scheme + authority + path;
    let rest = authority + path;
    assert(w + scheme + authority + path + v =~= w + core + v);
    assert(core[0] == if scheme.len() > 0 {
        scheme[0]
    } else {
        authority[0]
    });
    assert(core.last() == if path.len() > 0 {
        path.last()
    } else {
        authority.last()
    });
    text::law_trim_takes_white_space_off(w, core, v);
    lemma_scheme_is_stripped(scheme, authority, path);
    if path.len() > 0 {
        assert(rest =~= authority.push('/') + path.skip(1));
        text::law_fields_of_both_sides(authority, '/', path.skip(1));
        assert(text::fields(rest, '/')[0] == authority);
    } else {
        assert(rest =~= authority);
        text::lemma_one_field(authority, '/');
    }
}

proof fn lemma_port_text(port: u16)
    ensures
        ({
            let p = text::decimal(port as int);
            &&& p.len() > 0
            &&& !p.contains(':') && !p.contains('/') && !p.contains(']')
            &&& !text::is_white(p.last())
            &&& text::u16_text(p) == Some(port)
        }),
{
    let p = text::digits(port as nat, 10);
    text::law_digits_are_read_back(port as nat, 10);
    text::lemma_digits_lack(port as nat, 10, ':');
    text::lemma_digits_lack(port as nat, 10, '/');
    text::lemma_digits_lack(port as nat, 10, ']');
    assert(text::is_digit(p[p.len() - 1]));
    text::law_integers_are_read_back(port as int, 0, 65535);
}

/// A server is connected to at the host and port that it names, whether a scheme stands in
/// front of them or a path behind them; one that names no port is connected to at port 443. In
/// both cases the host is what it is asked for.
#[verifier::rlimit(40)]
pub proof fn law_servers_are_found_by_host_and_port(
    w: Seq<char>,
    scheme: Seq<char>,
    host: Seq<char>,
    port: u16,
    path: Seq<char>,
    v: Seq<char>,
)
    requires
        forall|i: int| 0 <= i < w.len() ==> text::is_white(#[trigger] w[i]),
        forall|i: int| 0 <= i < v.len() ==> text::is_white(#[trigger] v[i]),
        scheme.len() == 0 || scheme == "http://"@ || scheme == "https://"@,
        !host.contains('/'),
        !host.contains(':'),
        host.len() > 0,
        host[0] != '[',
        !text::is_white(host[0]),
        !text::is_white(host.last()),
        path.len() > 0 ==> path[0] == '/' && !text::is_white(path.last()),
    ensures
        endpoint_of(w + scheme + (host + ":"@ + text::decimal(port as int)) + path + v) == Ok::<
            (Seq<char>, Seq<char>),
            EcErrorView,
        >((host + ":"@ + text::decimal(port as int), host)),
        endpoint_of(w + scheme + host + path + v) == Ok::<(Seq<char>, Seq<char>), EcErrorView>(
            (host + ":443"@, host),
        ),
{
    let p = text::decimal(port as int);
    let named = host + ":"@ + p;
    reveal_strlit(":");
    reveal_strlit("http:");
    reveal_strlit("https:");
    reveal_strlit(":443");
    lemma_port_text(port);
    assert(!named.contains('/')) by {
        if named.contains('/') {
            let i = choose|i: int| 0 <= i < named.len() && named[i] == '/';
            if i < host.len() {
                assert(host[i] == '/');
            } else if i > host.len() {
                assert(p[i - host.len() - 1] == '/');
            }
        }
    }
    assert(named[0] == host[0] && named.last() == p.last());
    assert(text::is_digit(p.last())) by {
        text::law_digits_are_read_back(port as nat, 10);
        assert(text::is_digit(p[p.len() - 1]));
    }
    assert("http:"@.last() == ':' && "https:"@.last() == ':');
    assert(host.last() != ':') by {
        if host.last() == ':' {
            assert(host[host.len() - 1] == ':');
        }
    }
    lemma_authority_is_found(w, scheme, named, path, v);
    lemma_authority_is_found(w, scheme, host, path, v);
    text::law_characters_are_found(host, ':', p);
    assert(named =~= host.push(':') + p);
    assert(named.take(host.len() as int) =~= host);
    assert(named.skip(host.len() as int + 1) =~= p);
    law_default_port_is_added(w + scheme + host + path + v);
    assert(text::decimal(443) =~= seq!['4', '4', '3']) by {
        reveal_with_fuel(text::digits, 4);
    }
    assert(host + ":"@ + text::decimal(443) =~= host + ":443"@);
}

/// An IPv6 address stands in brackets, with a port behind them or, for port 443, without one;
/// it is asked for without the brackets.
#[verifier::rlimit(40)]
pub proof fn law_bracketed_servers_are_found(
    w: Seq<char>,
    scheme: Seq<char>,
    inner: Seq<char>,
    port: u16,
    path: Seq<char>,
    v: Seq<char>,
)
    requires
        forall|i: int| 0 <= i < w.len() ==> text::is_white(#[trigger] w[i]),
        forall|i: int| 0 <= i < v.len() ==> text::is_white(#[trigger] v[i]),
        scheme.len() == 0 || scheme == "http://"@ || scheme == "https://"@,
        !inner.contains('/'),
        !inner.contains(']'),
        path.len() > 0 ==> path[0] == '/' && !text::is_white(path.last()),
    ensures
        endpoint_of(
            w + scheme + ("["@ + inner + "]:"@ + text::decimal(port as int)) + path + v,
        ) == Ok::<(Seq<char>, Seq<char>), EcErrorView>(
            ("["@ + inner + "]:"@ + text::decimal(port as int), inner),
        ),
        endpoint_of(w + scheme + ("["@ + inner + "]"@) + path + v) == Ok::<
            (Seq<char>, Seq<char>),
            EcErrorView,
        >(("["@ + inner + "]:443"@, inner)),
{
    let p = text::decimal(port as int);
    let bare = "["@ + inner + "]"@;
    let named = "["@ + inner + "]:"@ + p;
    reveal_strlit("[");
    reveal_strlit("]");
    reveal_strlit("]:");
    reveal_strlit(":");
    reveal_strlit("]:443");
    reveal_strlit("http:");
    reveal_strlit("https:");
    lemma_port_text(port);
    let n = inner.len() as int;
    assert(!bare.contains('/')) by {
        if bare.contains('/') {
            let i = choose|i: int| 0 <= i < bare.len() && bare[i] == '/';
            if 0 < i <= n {
                assert(inner[i - 1] == '/');
            }
        }
    }
    assert(!named.contains('/')) by {
        if named.contains('/') {
            let i = choose|i: int| 0 <= i < named.len() && named[i] == '/';
            if 0 < i <= n {
                assert(inner[i - 1] == '/');
            } else if i > n + 2 {
                assert(p[i - n - 3] == '/');
            }
        }
    }
    assert(named.last() == p.last() && named[0] == '[');
    assert("http:"@[0] == 'h' && "https:"@[0] == 'h');
    lemma_authority_is_found(w, scheme, named, path, v);
    lemma_authority_is_found(w, scheme, bare, path, v);
    lemma_bracket_port(inner, p);
    lemma_bracket_alone(inner);
    assert(text::decimal(443) =~= seq!['4', '4', '3']) by {
        reveal_with_fuel(text::digits, 4);
    }
    assert(bare + ":"@ + text::decimal(443) =~= "["@ + inner + "]:443"@);
    let full = bare + ":"@ + text::decimal(443);
    assert(full =~= "["@ + inner + "]:"@ + text::decimal(443));
    lemma_bracket_host(inner, p);
    lemma_bracket_host(inner, text::decimal(443));
}

#[verifier::rlimit(40)]
proof fn lemma_bracket_host(inner: Seq<char>, p: Seq<char>)
    requires
        !inner.contains(']'),
    ensures
        host_of("["@ + inner + "]:"@ + p) == Ok::<Seq<char>, EcErrorView>(inner),
{
    reveal_strlit("[");
    reveal_strlit("]:");
    let s = "["@ + inner + "]:"@ + p;
    let n = inner.len() as int;
    assert(s[n + 1] == ']');
    assert forall|j: int| 0 <= j < n + 1 implies s[j] != ']' by {
        if j > 0 {
            assert(s[j] == inner[j - 1]);
        }
    }
    text::lemma_first_of(s, ']', n + 1);
    assert(s.subrange(1, n + 1) =~= inner);
}

#[verifier::rlimit(40)]
proof fn lemma_bracket_port(inner: Seq<char>, p: Seq<char>)
    requires
        !inner.contains(']'),
        !p.contains(']'),
    ensures
        port_candidate("["@ + inner + "]:"@ + p) == Some(p),
{
    reveal_strlit("[");
    reveal_strlit("]:");
    let s = "["@ + inner + "]:"@ + p;
    let n = inner.len() as int;
    let k = n + 1;
    assert(s.subrange(k, k + 2) =~= "]:"@);
    assert forall|j: int| k < j <= s.len() implies !text::occurs_at(s, "]:"@, j) by {
        if text::occurs_at(s, "]:"@, j) {
            assert(s.subrange(j, j + 2)[0] == ']');
            assert(s[j] == ']');
            assert(p[j - n - 3] == ']');
        }
    }
    assert(text::is_last_text(s, "]:"@, k));
    let c = choose|c: int| text::is_last_text(s, "]:"@, c);
    assert(text::is_last_text(s, "]:"@, c));
    assert(c == k);
    assert(s.skip(k + 2) =~= p);
}

proof fn lemma_bracket_alone(inner: Seq<char>)
    requires
        !inner.contains(']'),
    ensures
        port_candidate("["@ + inner + "]"@) is None,
{
    reveal_strlit("[");
    reveal_strlit("]");
    reveal_strlit("]:");
    let s = "["@ + inner + "]"@;
    assert forall|j: int| !text::is_last_text(s, "]:"@, j) by {
        if text::occurs_at(s, "]:"@, j) {
            assert(s.subrange(j, j + 2)[0] == ']');
            assert(s[j] == ']');
            if 0 < j <= inner.len() {
                assert(inner[j - 1] == ']');
            }
        }
    }
}

/// A host with something else than a port behind its colon is refused, and so are a server that
/// is blank and one without a host.
#[verifier::rlimit(40)]
pub proof fn law_broken_servers_are_refused(
    scheme: Seq<char>,
    host: Seq<char>,
    p: Seq<char>,
    blank: Seq<char>,
)
    requires
        scheme.len() == 0 || scheme == "http://"@ || scheme == "https://"@,
        !host.contains('/'),
        host.len() > 0,
        host[0] != '[',
        !text::is_white(host[0]),
        p.len() > 0,
        !p.contains('/'),
        !p.contains(':'),
        !text::is_white(p.last()),
        text::u16_text(p) is None,
        forall|i: int| 0 <= i < blank.len() ==> text::is_white(#[trigger] blank[i]),
    ensures
        endpoint_of(scheme + host + ":"@ + p) == Err::<(Seq<char>, Seq<char>), EcErrorView>(
            EcErrorView::InvalidConfig("invalid server port"@),
        ),
        endpoint_of(blank) == Err::<(Seq<char>, Seq<char>), EcErrorView>(
            EcErrorView::InvalidConfig("server is required"@),
        ),
        endpoint_of(":"@ + p) is Err,
        endpoint_of("https://"@) is Err,
{
    let none = Seq::<char>::empty();
    let named = host + ":"@ + p;
    reveal_strlit(":");
    reveal_strlit("http:");
    reveal_strlit("https:");
    reveal_strlit("https://");
    assert(!named.contains('/')) by {
        if named.contains('/') {
            let i = choose|i: int| 0 <= i < named.len() && named[i] == '/';
            if i < host.len() {
                assert(host[i] == '/');
            } else if i > host.len() {
                assert(p[i - host.len() - 1] == '/');
            }
        }
    }
    assert(named.last() == p.last() && named[0] == host[0]);
    assert(p.last() != ':') by {
        if p.last() == ':' {
            assert(p[p.len() - 1] == ':');
        }
    }
    assert("http:"@.last() == ':' && "https:"@.last() == ':');
    lemma_authority_is_found(none, scheme, named, none, none);
    assert(none + scheme + named + none + none =~= scheme + host + ":"@ + p);
    text::law_characters_are_found(host, ':', p);
    assert(named =~= host.push(':') + p);
    assert(named.skip(host.len() as int + 1) =~= p);
    text::law_trim_takes_white_space_off(blank, none, none);
    assert(blank + none + none =~= blank);
    let lone = ":"@ + p;
    assert(!lone.contains('/')) by {
        if lone.contains('/') {
            let i = choose|i: int| 0 <= i < lone.len() && lone[i] == '/';
            assert(p[i - 1] == '/');
        }
    }
    assert(lone[0] == ':' && lone.last() == p.last());
    lemma_authority_is_found(none, none, lone, none, none);
    assert(none + none + lone + none + none =~= lone);
    text::law_characters_are_found(none, ':', p);
    assert(lone =~= none.push(':') + p);
    assert(lone.skip(1) =~= p);
    let empty = "https://"@;
    text::lemma_trimmed_already(empty);
    assert(empty.is_prefix_of(empty));
    assert(empty.skip(8) =~= none);
    text::lemma_one_field(none, '/');
}

/// The host of an authority ends at its last colon, whatever colons stand before it.
pub proof fn law_last_colon_ends_the_host(host: Seq<char>, p: Seq<char>)
    requires
        host.len() > 0,
        host[0] != '[',
        !p.contains(':'),
    ensures
        host_of(host + ":"@ + p) == Ok::<Seq<char>, EcErrorView>(host),
        port_candidate(host + ":"@ + p) == Some(p),
{
    reveal_strlit(":");
    let s = host + ":"@ + p;
    text::law_characters_are_found(host, ':', p);
    assert(s =~= host.push(':') + p);
    assert(s[0] == host[0]);
    assert(s.take(host.len() as int) =~= host);
    assert(s.skip(host.len() as int + 1) =~= p);
}

} // verus!
