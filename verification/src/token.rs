//! The token that the gateway's agent hands out through a TLS session.

use vstd::prelude::*;
use crate::endpoint;
use crate::error::{EcError, EcErrorView, EcResult};
use crate::stream;
use crate::stream::ReadOutcome;
use crate::text;

verus! {

/// How long one exchange may take, in milliseconds.
pub const TOKEN_IO_TIMEOUT: u64 = 5_000;

/// How long the response may take, in milliseconds.
pub const TOKEN_READ_DEADLINE: u64 = 8_000;

/// How many digits of the session id go into the token.
pub const TOKEN_SESSION_HEX_SLICE_LEN: usize = 31;

/// Where the token is asked for, and in which words.
#[derive(Debug)]
pub struct TokenRequest {
    pub authority: String,
    pub host: String,
    pub request: String,
}

/// The two HTTP requests that make the gateway keep a session.
pub open spec fn token_request(authority: Seq<char>, twf_id: Seq<char>) -> Seq<char> {
    "GET /por/conf.csp HTTP/1.1\r\nHost: "@ + authority + "\r\nCookie: TWFID="@ + twf_id
        + "\r\nConnection: keep-alive\r\n\r\n"@ + "GET /por/rclist.csp HTTP/1.1\r\nHost: "@
        + authority + "\r\nCookie: TWFID="@ + twf_id + "\r\nConnection: close\r\n\r\n"@
}

/// The two HTTP requests that make the gateway keep a session.
pub fn build_token_request(authority: &str, twf_id: &str) -> (r: String)
    ensures
        r@ == token_request(authority@, twf_id@),
{
    "GET /por/conf.csp HTTP/1.1\r\nHost: ".to_owned().concat(authority).concat(
        "\r\nCookie: TWFID=",
    ).concat(twf_id).concat("\r\nConnection: keep-alive\r\n\r\n").concat(
        "GET /por/rclist.csp HTTP/1.1\r\nHost: ",
    ).concat(authority).concat("\r\nCookie: TWFID=").concat(twf_id).concat(
        "\r\nConnection: close\r\n\r\n",
    )
}

/// Where the token of a server is asked for, and in which words.
pub fn request_agent_token(server: &str, twf_id: &str) -> (r: EcResult<TokenRequest>)
    ensures
        match (r, endpoint::endpoint_of(server@)) {
            (Ok(q), Ok((authority, host))) => {
                &&& q.authority@ == authority
                &&& q.host@ == host
                &&& q.request@ == token_request(authority, twf_id@)
            },
            (Err(e), Err(f)) => e@ == f,
            _ => false,
        },
{
    match endpoint::parse_server(server) {
        Err(e) => Err(e),
        Ok((authority, host)) => {
            let request = build_token_request(authority.as_str(), twf_id);
            Ok(TokenRequest { authority, host, request })
        },
    }
}

/// Takes one read of the response; says whether there is more to read.
pub fn take_token_response(sink: &mut Vec<u8>, read: ReadOutcome) -> (r: EcResult<bool>)
    ensures
        match read {
            ReadOutcome::Eof => r matches Ok(more) && !more && final(sink)@ == old(sink)@,
            ReadOutcome::TimedOut => r matches Ok(more) && !more && final(sink)@ == old(sink)@,
            ReadOutcome::Data(bytes) => r matches Ok(more) && more && final(sink)@ == old(sink)@
                + bytes@,
            ReadOutcome::Failed(m) => {
                &&& r matches Err(e)
                &&& e@ == EcErrorView::Runtime("token response read failed: "@ + m@)
                &&& final(sink)@ == old(sink)@
            },
        },
        final(sink)@ == old(sink)@ + stream::received(read),
{
    match read {
        ReadOutcome::Eof => Ok(false),
        ReadOutcome::TimedOut => Ok(false),
        ReadOutcome::Data(bytes) => {
            let mut bytes = bytes;
            sink.append(&mut bytes);
            Ok(true)
        },
        ReadOutcome::Failed(m) => Err(
            EcError::Runtime("token response read failed: ".to_owned().concat(m.as_str())),
        ),
    }
}

/// Bytes in hexadecimal, two small digits each.
pub open spec fn hex_text(data: Seq<u8>) -> Seq<char>
    decreases data.len(),
{
    if data.len() == 0 {
        Seq::empty()
    } else {
        hex_text(data.drop_last()) + text::hex_byte(data.last())
    }
}

/// `hex::encode` of `hex`: the bytes in hexadecimal, two small digits each, the higher
/// first.
#[verifier::external_body]
fn hex_encode(data: &[u8]) -> (r: String)
    ensures
        r@ == hex_text(data@),
{
    hex::encode(data)
}

proof fn lemma_hex_len(data: Seq<u8>)
    ensures
        hex_text(data).len() == 2 * data.len(),
    decreases data.len(),
{
    if data.len() > 0 {
        lemma_hex_len(data.drop_last());
    }
}

/// The token that a session id makes: the first of its hexadecimal digits, and a zero.
pub open spec fn token_of(session_id: Option<Seq<u8>>) -> Result<Seq<char>, EcErrorView> {
    match session_id {
        None => Err(EcErrorView::Runtime("missing server tls session"@)),
        Some(id) => if id.len() == 0 {
            Err(EcErrorView::Runtime("server tls session id is empty"@))
        } else if 2 * id.len() < TOKEN_SESSION_HEX_SLICE_LEN {
            Err(
                EcErrorView::Runtime(
                    "server session id hex too short: "@ + text::decimal(2 * id.len() as int),
                ),
            )
        } else {
            Ok(hex_text(id).take(TOKEN_SESSION_HEX_SLICE_LEN as int).push('\0'))
        },
    }
}

/// The token that the protocol is spoken with: the agent's token and the session id.
pub open spec fn protocol_token(agent_token: Seq<char>, twf_id: Seq<char>) -> Seq<char> {
    agent_token + twf_id
}

/// The token, from the response and from the id of the TLS session that it came through.
pub fn fetch_agent_token(response: &Vec<u8>, session_id: Option<&[u8]>) -> (r: EcResult<String>)
    ensures
        crate::error::shown(r) == if response@.len() == 0 {
            Err(EcErrorView::Runtime("token response is empty or timed out"@))
        } else {
            token_of(text::shown(session_id))
        },
{
    if response.len() == 0 {
        return Err(EcError::Runtime("token response is empty or timed out".to_owned()));
    }
    match session_id {
        None => Err(EcError::Runtime("missing server tls session".to_owned())),
        Some(id) => {
            if id.len() == 0 {
                return Err(EcError::Runtime("server tls session id is empty".to_owned()));
            }
            let digits = hex_encode(id);
            let cs = text::chars_of(digits.as_str());
            proof {
                lemma_hex_len(id@);
            }
            if cs.len() < TOKEN_SESSION_HEX_SLICE_LEN {
                let count = text::decimal_u64(cs.len() as u64);
                return Err(
                    EcError::Runtime(
                        "server session id hex too short: ".to_owned().concat(count.as_str()),
                    ),
                );
            }
            let mut token = text::text_of(
                text::take(cs.as_slice(), TOKEN_SESSION_HEX_SLICE_LEN),
            );
            token.push('\0');
            Ok(token)
        },
    }
}

/// A token has one character more than the digits that go into it, and ends with a zero.
pub proof fn law_token_has_fixed_length(session_id: Seq<u8>)
    requires
        token_of(Some(session_id)) is Ok,
    ensures
        token_of(Some(session_id))->Ok_0.len() == TOKEN_SESSION_HEX_SLICE_LEN + 1,
        token_of(Some(session_id))->Ok_0.last() == '\0',
{
    lemma_hex_len(session_id);
}

proof fn lemma_hex_digits(data: Seq<u8>, k: int)
    requires
        0 <= k < data.len(),
    ensures
        hex_text(data).len() == 2 * data.len(),
        hex_text(data).subrange(2 * k, 2 * k + 2) == text::hex_byte(data[k]),
    decreases data.len(),
{
    lemma_hex_len(data);
    lemma_hex_len(data.drop_last());
    if k < data.len() - 1 {
        lemma_hex_digits(data.drop_last(), k);
        assert(hex_text(data).subrange(2 * k, 2 * k + 2) =~= hex_text(data.drop_last()).subrange(
            2 * k,
            2 * k + 2,
        ));
    } else {
        assert(hex_text(data).subrange(2 * k, 2 * k + 2) =~= text::hex_byte(data[k]));
    }
}

/// A token holds the first fifteen bytes of the session id, each in two hexadecimal digits, then
/// the higher digit of the sixteenth, and ends in a zero; what the id holds behind that does not
/// matter, and an id with less is none to make a token of.
#[verifier::rlimit(40)]
pub proof fn law_tokens_show_the_session(id: Seq<u8>, k: int)
    requires
        0 <= k < 15,
    ensures
        id.len() < 16 ==> token_of(Some(id)) is Err,
        token_of(None) is Err,
        id.len() >= 16 ==> {
            let token = token_of(Some(id))->Ok_0;
            &&& token_of(Some(id)) is Ok
            &&& token.len() == 32
            &&& text::number(token.subrange(2 * k, 2 * k + 2), 16) == Some(id[k] as int)
            &&& text::number(seq![token[30]], 16) == Some((id[15] / 16) as int)
            &&& token[31] == '\0'
        },
{
    if id.len() >= 16 {
        let token = token_of(Some(id))->Ok_0;
        lemma_hex_len(id);
        lemma_hex_digits(id, k);
        lemma_hex_digits(id, 15);
        assert(token.subrange(2 * k, 2 * k + 2) =~= hex_text(id).subrange(2 * k, 2 * k + 2));
        text::law_hex_bytes_are_read_back(id[k]);
        assert(token[30] == hex_text(id)[30]);
        assert(hex_text(id).subrange(30, 32)[0] == hex_text(id)[30]);
        let one = seq![token[30]];
        assert(one.drop_last() =~= Seq::empty());
        assert(text::number(one.drop_last(), 16) == Some(0int));
        assert(one.last() == text::digit_char((id[15] / 16) as int));
        assert(text::number(one, 16) == Some((id[15] / 16) as int));
    }
}

/// With a session id of sixteen characters behind it, a token is one that the tunnel can be
/// spoken with: its bytes are those of the token and then those of the session id.
#[verifier::rlimit(40)]
pub proof fn law_tokens_fit_the_protocol(id: Seq<u8>, twf_id: Seq<char>)
    requires
        id.len() >= 16,
        twf_id.len() == 16,
        forall|i: int| 0 <= i < 16 ==> '0' <= #[trigger] twf_id[i] <= 'z',
    ensures
        ({
            let token = token_of(Some(id))->Ok_0;
            let bytes = crate::protocol_wire::token_bytes(protocol_token(token, twf_id));
            &&& bytes is Ok
            &&& bytes->Ok_0.take(32) == vstd::utf8::encode_utf8(token)
            &&& bytes->Ok_0.skip(32) == vstd::utf8::encode_utf8(twf_id)
        }),
{
    let token = token_of(Some(id))->Ok_0;
    let whole = token + twf_id;
    lemma_hex_len(id);
    assert forall|i: int| 0 <= i < token.len() implies '\0' <= #[trigger] token[i]
        <= '\u{7f}' by {
        if i < 31 {
            let k = i / 2;
            lemma_hex_digits(id, k);
            text::law_hex_bytes_are_read_back(id[k]);
            assert(hex_text(id).subrange(2 * k, 2 * k + 2)[i - 2 * k] == hex_text(id)[i]);
            assert(text::is_digit(text::hex_byte(id[k])[i - 2 * k]));
        }
    }
    assert(vstd::utf8::is_ascii_chars(token));
    assert(vstd::utf8::is_ascii_chars(twf_id));
    assert(vstd::utf8::is_ascii_chars(whole)) by {
        assert forall|i: int| 0 <= i < whole.len() implies '\0' <= #[trigger] whole[i]
            <= '\u{7f}' by {
            if i < 32 {
                assert(whole[i] == token[i]);
            } else {
                assert(whole[i] == twf_id[i - 32]);
            }
        }
    }
    vstd::utf8::is_ascii_chars_encode_utf8(token);
    vstd::utf8::is_ascii_chars_encode_utf8(twf_id);
    vstd::utf8::is_ascii_chars_encode_utf8(whole);
    let b = vstd::utf8::encode_utf8(whole);
    let x = vstd::utf8::encode_utf8(token);
    let y = vstd::utf8::encode_utf8(twf_id);
    assert forall|i: int| 0 <= i < 32 implies #[trigger] b.take(32)[i] == x[i] by {
        assert(whole[i] == token[i]);
        assert(b[i] == whole[i] as u8);
    }
    assert(b.take(32) =~= x);
    assert forall|i: int| 0 <= i < 16 implies #[trigger] b.skip(32)[i] == y[i] by {
        assert(whole[32 + i] == twf_id[i]);
        assert(b[32 + i] == whole[32 + i] as u8);
    }
    assert(b.skip(32) =~= y);
}

/// The two requests that make the gateway keep a session are made of these lines: the first asks
/// for the settings and wants to keep the connection, the second asks for the list and wants to
/// close it, and both name the server and the session.
#[verifier::rlimit(40)]
pub proof fn law_requests_keep_a_session(authority: Seq<char>, twf_id: Seq<char>)
    requires
        !authority.contains('\n'),
        !twf_id.contains('\n'),
    ensures
        ({
            let host = "Host: "@ + authority + "\r"@;
            let cookie = "Cookie: TWFID="@ + twf_id + "\r"@;
            text::fields(token_request(authority, twf_id), '\n') == seq![
                "GET /por/conf.csp HTTP/1.1\r"@,
                host,
                cookie,
                "Connection: keep-alive\r"@,
                "\r"@,
            ] + text::fields(crate::route_table::request_text(authority, twf_id), '\n')
        }),
{
    reveal_strlit("GET /por/conf.csp HTTP/1.1\r\nHost: ");
    reveal_strlit("\r\nCookie: TWFID=");
    reveal_strlit("\r\nConnection: keep-alive\r\n\r\n");
    reveal_strlit("GET /por/conf.csp HTTP/1.1\r");
    reveal_strlit("Host: ");
    reveal_strlit("Cookie: TWFID=");
    reveal_strlit("Connection: keep-alive\r");
    reveal_strlit("\r");
    let a = "GET /por/conf.csp HTTP/1.1\r"@;
    let b = "Host: "@ + authority + "\r"@;
    let c = "Cookie: TWFID="@ + twf_id + "\r"@;
    let d = "Connection: keep-alive\r"@;
    let e = "\r"@;
    let rest = crate::route_table::request_text(authority, twf_id);
    text::lemma_framed_lacks("Host: "@, authority, "\r"@, '\n');
    text::lemma_framed_lacks("Cookie: TWFID="@, twf_id, "\r"@, '\n');
    let e5 = e.push('\n') + rest;
    let e4 = d.push('\n') + e5;
    let e3 = c.push('\n') + e4;
    let e2 = b.push('\n') + e3;
    assert(token_request(authority, twf_id) =~= a.push('\n') + e2);
    text::law_fields_of_both_sides(a, '\n', e2);
    text::law_fields_of_both_sides(b, '\n', e3);
    text::law_fields_of_both_sides(c, '\n', e4);
    text::law_fields_of_both_sides(d, '\n', e5);
    text::law_fields_of_both_sides(e, '\n', rest);
    assert(text::fields(token_request(authority, twf_id), '\n') =~= seq![a, b, c, d, e]
        + text::fields(rest, '\n'));
}

} // verus!
