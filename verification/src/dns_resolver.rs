//! Name lookups at the servers that the gateway names, with a cache.

use hickory_proto::op::{Message, MessageType, Query};
use hickory_proto::rr::{Name, RecordType};
use vstd::prelude::*;
use crate::addr;
use crate::addr::{Ipv4Addr, SocketAddr, SocketAddrView};
use crate::error;
use crate::error::{EcError, EcErrorView, EcResult};
use crate::text;

verus! {

/// The port of a server that names none.
pub const DNS_DEFAULT_PORT: u16 = 53;

/// How long an address is kept, in milliseconds.
pub const DNS_CACHE_TTL: u64 = 300_000;

/// How long an exchange may take, in milliseconds.
pub const DNS_IO_TIMEOUT: u64 = 1_200;

/// The longest datagram that is read.
pub const DNS_UDP_BUFFER_SIZE: usize = 4096;

/// The longest response over TCP.
pub const DNS_TCP_MAX_PAYLOAD: usize = 65535;

// ---------------------------------------------------------------------------
// Servers
// ---------------------------------------------------------------------------

/// A server as text: a socket address, or an address alone, which gets the default port.
pub open spec fn server_text(raw: Seq<char>) -> Option<SocketAddrView> {
    let t = text::trimmed(raw);
    match addr::socket_text(t) {
        Some(a) => Some(a),
        None => match addr::ipv4_text(t) {
            Some(ip) => Some(SocketAddrView::V4 { ip, port: DNS_DEFAULT_PORT }),
            None => match addr::ipv6_text(t) {
                Some(groups) => Some(
                    SocketAddrView::V6 { groups, port: DNS_DEFAULT_PORT, flow: 0, scope: 0 },
                ),
                None => None,
            },
        },
    }
}

/// A server, read from text.
pub fn parse_dns_server(raw: &str) -> (r: Option<SocketAddr>)
    ensures
        text::shown(r) == server_text(raw@),
{
    let cs = text::chars_of(raw);
    let t = text::trim(cs.as_slice());
    match addr::parse_socket_addr(t) {
        Some(a) => Some(a),
        None => match addr::parse_ipv4(t) {
            Some(ip) => Some(SocketAddr::V4 { ip, port: DNS_DEFAULT_PORT }),
            None => match addr::parse_ipv6(t) {
                Some(ip6) => Some(SocketAddr::V6 { ip6, port: DNS_DEFAULT_PORT, flow: 0, scope: 0 }),
                None => None,
            },
        },
    }
}

/// The servers of a list that can be asked, in their order.
pub open spec fn usable_servers(raw: Seq<Seq<char>>) -> Seq<SocketAddrView>
    decreases raw.len(),
{
    if raw.len() == 0 {
        Seq::empty()
    } else {
        let before = usable_servers(raw.drop_last());
        match server_text(raw.last()) {
            Some(a) => before.push(a),
            None => before,
        }
    }
}

fn parse_servers(raw: &Vec<String>) -> (r: Vec<SocketAddr>)
    ensures
        text::views(r@) == usable_servers(text::views(raw@)),
{
    let ghost all = text::views(raw@);
    let mut out: Vec<SocketAddr> = Vec::new();
    assert(text::views(out@) =~= usable_servers(all.take(0)));
    for i in 0..raw.len()
        invariant
            all == text::views(raw@),
            text::views(out@) == usable_servers(all.take(i as int)),
    {
        assert(all.take(i + 1).drop_last() == all.take(i as int));
        assert(all.take(i + 1).last() == raw@[i as int]@);
        match parse_dns_server(raw[i].as_str()) {
            Some(a) => {
                proof {
                    text::lemma_views_push(out@, a);
                }
                out.push(a);
            },
            None => {},
        }
    }
    assert(all.take(all.len() as int) == all);
    out
}

// ---------------------------------------------------------------------------
// The cache
// ---------------------------------------------------------------------------

/// One kept address.
#[derive(Debug, Clone)]
pub struct CacheEntry {
    rc_id: i32,
    host: String,
    ip: Ipv4Addr,
    expires_at: u64,
}

/// The kept addresses, at most one for each resource and host.
#[derive(Debug, Clone)]
pub struct DnsCache {
    entries: Vec<CacheEntry>,
}

impl CacheEntry {
    /// What the entry is found by.
    pub closed spec fn key(self) -> (i32, Seq<char>) {
        (self.rc_id, self.host@)
    }

    /// The address and the time until which it is kept.
    pub closed spec fn value(self) -> (Ipv4Addr, u64) {
        (self.ip, self.expires_at)
    }
}

/// What a list of entries with different keys holds.
pub closed spec fn cache_map(e: Seq<CacheEntry>) -> Map<(i32, Seq<char>), (Ipv4Addr, u64)>
    decreases e.len(),
{
    if e.len() == 0 {
        Map::empty()
    } else {
        cache_map(e.drop_last()).insert(e.last().key(), e.last().value())
    }
}

impl View for DnsCache {
    type V = Map<(i32, Seq<char>), (Ipv4Addr, u64)>;

    closed spec fn view(&self) -> Self::V {
        cache_map(self.entries@)
    }
}

spec fn distinct_keys(e: Seq<CacheEntry>) -> bool {
    forall|i: int, j: int|
        0 <= i < j < e.len() ==> (#[trigger] e[i]).key() != (#[trigger] e[j]).key()
}

proof fn lemma_map_has(e: Seq<CacheEntry>, i: int)
    requires
        distinct_keys(e),
        0 <= i < e.len(),
    ensures
        cache_map(e).contains_key(e[i].key()),
        cache_map(e)[e[i].key()] == e[i].value(),
    decreases e.len(),
{
    if i < e.len() - 1 {
        lemma_map_has(e.drop_last(), i);
        assert(e.drop_last()[i] == e[i]);
    }
}

proof fn lemma_map_lacks(e: Seq<CacheEntry>, key: (i32, Seq<char>))
    requires
        forall|i: int| 0 <= i < e.len() ==> (#[trigger] e[i]).key() != key,
    ensures
        !cache_map(e).contains_key(key),
    decreases e.len(),
{
    if e.len() > 0 {
        lemma_map_lacks(e.drop_last(), key);
    }
}

proof fn lemma_map_remove(e: Seq<CacheEntry>, i: int)
    requires
        distinct_keys(e),
        0 <= i < e.len(),
    ensures
        distinct_keys(e.remove(i)),
        cache_map(e.remove(i)) == cache_map(e).remove(e[i].key()),
    decreases e.len(),
{
    if i == e.len() - 1 {
        assert(e.remove(i) == e.drop_last());
        lemma_map_lacks(e.drop_last(), e[i].key());
        assert(cache_map(e.drop_last()) =~= cache_map(e).remove(e[i].key()));
    } else {
        lemma_map_remove(e.drop_last(), i);
        assert(e.remove(i).drop_last() == e.drop_last().remove(i));
        assert(e.drop_last()[i] == e[i]);
        assert(e.remove(i).last() == e.last());
        assert(cache_map(e.remove(i)) =~= cache_map(e).remove(e[i].key()));
    }
}

impl DnsCache {
    /// No key occurs twice.
    pub closed spec fn wf(&self) -> bool {
        distinct_keys(self.entries@)
    }

    /// A cache with nothing in it.
    pub fn new() -> (r: Self)
        ensures
            r.wf(),
            r@ == Map::<(i32, Seq<char>), (Ipv4Addr, u64)>::empty(),
    {
        DnsCache { entries: Vec::new() }
    }

    /// Forgets everything.
    pub fn clear_cache(&mut self)
        ensures
            final(self).wf(),
            final(self)@ == Map::<(i32, Seq<char>), (Ipv4Addr, u64)>::empty(),
    {
        self.entries = Vec::new();
    }

    fn position(&self, rc_id: i32, host: &str) -> (r: Option<usize>)
        requires
            self.wf(),
        ensures
            match r {
                Some(i) => {
                    &&& i < self.entries@.len()
                    &&& self.entries@[i as int].key() == (rc_id, host@)
                    &&& self@.contains_key((rc_id, host@))
                    &&& self@[(rc_id, host@)] == self.entries@[i as int].value()
                },
                None => {
                    &&& !self@.contains_key((rc_id, host@))
                    &&& forall|j: int|
                        0 <= j < self.entries@.len() ==> (#[trigger] self.entries@[j]).key() != (
                            rc_id,
                            host@,
                        )
                },
            },
    {
        let wanted = text::chars_of(host);
        for i in 0..self.entries.len()
            invariant
                self.wf(),
                wanted@ == host@,
                forall|j: int|
                    0 <= j < i ==> (#[trigger] self.entries@[j]).key() != (rc_id, host@),
        {
            let have = text::chars_of(self.entries[i].host.as_str());
            if self.entries[i].rc_id == rc_id && text::same(have.as_slice(), wanted.as_slice()) {
                proof {
                    lemma_map_has(self.entries@, i as int);
                }
                return Some(i);
            }
        }
        proof {
            lemma_map_lacks(self.entries@, (rc_id, host@));
        }
        None
    }

    /// The address kept for a host, if its time is not over; an entry whose time is over is
    /// dropped.
    pub fn cache_get(&mut self, rc_id: i32, host: &str, now: u64) -> (r: Option<Ipv4Addr>)
        requires
            old(self).wf(),
        ensures
            final(self).wf(),
            ({
                let key = (rc_id, host@);
                if old(self)@.contains_key(key) && old(self)@[key].1 > now {
                    r == Some(old(self)@[key].0) && final(self)@ == old(self)@
                } else {
                    r is None && final(self)@ == old(self)@.remove(key)
                }
            }),
    {
        match self.position(rc_id, host) {
            Some(i) => {
                if self.entries[i].expires_at > now {
                    Some(self.entries[i].ip)
                } else {
                    proof {
                        lemma_map_remove(self.entries@, i as int);
                    }
                    let _dropped = self.entries.remove(i);
                    None
                }
            },
            None => {
                assert(self@.remove((rc_id, host@)) =~= self@);
                None
            },
        }
    }

    /// Keeps an address for a host from `now` on.
    pub fn cache_put(&mut self, rc_id: i32, host: &str, ip: Ipv4Addr, now: u64)
        requires
            old(self).wf(),
            now <= u64::MAX - DNS_CACHE_TTL,
        ensures
            final(self).wf(),
            final(self)@ == old(self)@.insert((rc_id, host@), (ip, (now + DNS_CACHE_TTL) as u64)),
    {
        let ghost before = self@;
        match self.position(rc_id, host) {
            Some(i) => {
                proof {
                    lemma_map_remove(self.entries@, i as int);
                    lemma_map_lacks_removed(self.entries@, i as int);
                }
                let _dropped = self.entries.remove(i);
            },
            None => {},
        }
        let ghost rest = self.entries@;
        let entry = CacheEntry {
            rc_id,
            host: host.to_owned(),
            ip,
            expires_at: now + DNS_CACHE_TTL,
        };
        self.entries.push(entry);
        assert(self.entries@.drop_last() == rest);
        assert(self@ =~= before.insert((rc_id, host@), (ip, (now + DNS_CACHE_TTL) as u64)));
    }
}

proof fn lemma_map_lacks_removed(e: Seq<CacheEntry>, i: int)
    requires
        distinct_keys(e),
        0 <= i < e.len(),
    ensures
        forall|j: int| 0 <= j < e.len() - 1 ==> (#[trigger] e.remove(i)[j]).key() != e[i].key(),
{
    assert forall|j: int| 0 <= j < e.len() - 1 implies (#[trigger] e.remove(i)[j]).key()
        != e[i].key() by {
        if j < i {
            assert(e.remove(i)[j] == e[j]);
        } else {
            assert(e.remove(i)[j] == e[j + 1]);
        }
    }
}

// ---------------------------------------------------------------------------
// Queries and responses
// ---------------------------------------------------------------------------

/// Why a query could not be written, in the words of `hickory_proto`.
#[derive(Debug)]
pub enum QueryFailure {
    /// The name is no domain name.
    Name(String),
    /// The message cannot be encoded.
    Encode(String),
}

/// A query failure as plain values.
pub ghost enum QueryFailureView {
    Name(Seq<char>),
    Encode(Seq<char>),
}

impl View for QueryFailure {
    type V = QueryFailureView;

    open spec fn view(&self) -> QueryFailureView {
        match self {
            QueryFailure::Name(m) => QueryFailureView::Name(m@),
            QueryFailure::Encode(m) => QueryFailureView::Encode(m@),
        }
    }
}

/// A response, as far as a lookup reads it.
#[derive(Debug)]
pub struct DnsMessage {
    /// The number that ties the response to its query.
    pub id: u16,
    /// It is a response, no query.
    pub is_response: bool,
    /// The response code; zero says that there was no error.
    pub response_code: u16,
    /// The response code in words.
    pub response_text: String,
    /// The response did not fit.
    pub truncated: bool,
    /// The answers in their order, each with its address if it is an A record.
    pub answers: Vec<Option<Ipv4Addr>>,
}

/// A response as plain values.
#[verifier::ext_equal]
pub ghost struct MessageView {
    pub id: u16,
    pub is_response: bool,
    pub response_code: u16,
    pub response_text: Seq<char>,
    pub truncated: bool,
    pub answers: Seq<Option<Ipv4Addr>>,
}

impl View for DnsMessage {
    type V = MessageView;

    open spec fn view(&self) -> MessageView {
        MessageView {
            id: self.id,
            is_response: self.is_response,
            response_code: self.response_code,
            response_text: self.response_text@,
            truncated: self.truncated,
            answers: self.answers@,
        }
    }
}

/// The number of the record type A.
pub const RECORD_TYPE_A: u16 = 1;

/// The message that `hickory_proto` writes to ask for the records of a name: its id, whether
/// recursion is desired, the name and the number of the record type.
pub uninterp spec fn dns_query(id: u16, recursion: bool, fqdn: Seq<char>, record_type: u16) -> Result<
    Seq<u8>,
    QueryFailureView,
>;

/// What a message with one question and nothing else begins with: the id, the flags and the
/// four counts.
pub open spec fn query_header(id: u16, recursion: bool) -> Seq<u8> {
    seq![
        (id / 256) as u8,
        (id % 256) as u8,
        if recursion {
            1
        } else {
            0
        },
        0,
        0,
        1,
        0,
        0,
        0,
        0,
        0,
        0,
    ]
}

/// `Name::from_ascii`, `Message::add_query` and `Message::to_vec` of `hickory_proto`: the
/// message with the given id and one question, encoded. It begins with its header.
#[verifier::external_body]
fn encode_query(id: u16, recursion: bool, fqdn: &str, record_type: u16) -> (r: Result<
    Vec<u8>,
    QueryFailure,
>)
    ensures
        match r {
            Ok(bytes) => {
                &&& dns_query(id, recursion, fqdn@, record_type) == Ok::<Seq<u8>, QueryFailureView>(
                    bytes@,
                )
                &&& query_header(id, recursion).is_prefix_of(bytes@)
            },
            Err(e) => dns_query(id, recursion, fqdn@, record_type) == Err::<
                Seq<u8>,
                QueryFailureView,
            >(e@),
        },
{
    let name = Name::from_ascii(fqdn).map_err(|e| QueryFailure::Name(e.to_string()))?;
    let query = Query::query(name, RecordType::from(record_type));
    let mut message = Message::new();
    message.set_id(id).set_recursion_desired(recursion).add_query(query);
    message.to_vec().map_err(|e| QueryFailure::Encode(e.to_string()))
}

/// What `hickory_proto` reads in the bytes of a message, or why it cannot read them.
pub uninterp spec fn dns_message(payload: Seq<u8>) -> Result<MessageView, Seq<char>>;

/// The message says of itself what its header says: its id, whether it is a response and
/// whether it was cut off.
pub open spec fn has_header(m: MessageView, payload: Seq<u8>) -> bool {
    &&& payload.len() >= 12
    &&& m.id == 256 * payload[0] + payload[1]
    &&& m.is_response == (payload[2] >= 128)
    &&& m.truncated == (payload[2] / 2 % 2 == 1)
}

/// `Message::from_vec` of `hickory_proto`: the message that the bytes encode. Its id and its
/// flags are those of the header that the bytes begin with.
#[verifier::external_body]
fn decode_message(payload: &[u8]) -> (r: Result<DnsMessage, String>)
    ensures
        match r {
            Ok(m) => {
                &&& dns_message(payload@) == Ok::<MessageView, Seq<char>>(m@)
                &&& has_header(m@, payload@)
            },
            Err(e) => dns_message(payload@) == Err::<MessageView, Seq<char>>(e@),
        },
{
    let m = Message::from_vec(payload).map_err(|e| e.to_string())?;
    Ok(DnsMessage {
        id: m.id(),
        is_response: m.message_type() == MessageType::Response,
        response_code: m.response_code().into(),
        response_text: m.response_code().to_string(),
        truncated: m.truncated(),
        answers: m.answers().iter().map(|r| r.data().as_a().map(|a| {
            let o = a.octets();
            Ipv4Addr::new(o[0], o[1], o[2], o[3])
        })).collect(),
    })
}

/// A name with a dot at its end.
pub open spec fn fully_qualified(host: Seq<char>) -> Seq<char> {
    if host.len() > 0 && host.last() == '.' {
        host
    } else {
        host + "."@
    }
}

/// The id that follows the given one.
pub open spec fn id_after(id: int) -> int {
    (id + 1) % 0x1_0000
}

/// The next id for a query; ids come in turn, and zero follows the highest.
pub fn next_query_id(counter: &mut u16) -> (r: u16)
    ensures
        r == *old(counter),
        *final(counter) == (*old(counter) + 1) % 0x1_0000,
        *final(counter) == id_after(*old(counter) as int),
{
    let id: u16 = *counter;
    *counter = id.wrapping_add(1);
    id
}

/// What follows from encoding a query.
pub open spec fn query_result(encoded: Result<Seq<u8>, QueryFailureView>) -> Result<
    Seq<u8>,
    EcErrorView,
> {
    match encoded {
        Ok(bytes) => Ok(bytes),
        Err(QueryFailureView::Name(m)) => Err(
            EcErrorView::Runtime("dns query name build failed: "@ + m),
        ),
        Err(QueryFailureView::Encode(m)) => Err(
            EcErrorView::Runtime("dns query encode failed: "@ + m),
        ),
    }
}

/// The query as encoded, or the error that its failure is reported as.
pub fn finish_query(encoded: Result<Vec<u8>, QueryFailure>) -> (r: EcResult<Vec<u8>>)
    ensures
        error::shown(r) == query_result(
            match encoded {
                Ok(bytes) => Ok(bytes@),
                Err(e) => Err(e@),
            },
        ),
{
    match encoded {
        Ok(bytes) => Ok(bytes),
        Err(QueryFailure::Name(m)) => Err(
            EcError::Runtime("dns query name build failed: ".to_owned().concat(m.as_str())),
        ),
        Err(QueryFailure::Encode(m)) => Err(
            EcError::Runtime("dns query encode failed: ".to_owned().concat(m.as_str())),
        ),
    }
}

/// The query for the A records of a host, under the given id.
pub fn build_a_query(id: u16, host: &str) -> (r: EcResult<Vec<u8>>)
    ensures
        error::shown(r) == query_result(
            dns_query(id, true, fully_qualified(host@), RECORD_TYPE_A),
        ),
        r matches Ok(bytes) ==> query_header(id, true).is_prefix_of(bytes@),
{
    let cs = text::chars_of(host);
    let fqdn = if cs.len() > 0 && cs[cs.len() - 1] == '.' {
        host.to_owned()
    } else {
        host.to_owned().concat(".")
    };
    let encoded = encode_query(id, true, fqdn.as_str(), RECORD_TYPE_A);
    finish_query(encoded)
}

/// Whether a response answers the query with the given id, and if not, why.
pub open spec fn response_failure(m: MessageView, expected_id: u16, server: SocketAddrView) -> Option<
    EcErrorView,
> {
    if m.id != expected_id {
        Some(
            EcErrorView::Runtime(
                "dns response id mismatch from "@ + server.text() + ": expected "@ + text::decimal(
                    expected_id as int,
                ) + ", got "@ + text::decimal(m.id as int),
            ),
        )
    } else if !m.is_response {
        Some(
            EcErrorView::Runtime(
                "dns response message type is not response from "@ + server.text(),
            ),
        )
    } else if m.response_code != 0 {
        Some(
            EcErrorView::Runtime(
                "dns response code from "@ + server.text() + ": "@ + m.response_text,
            ),
        )
    } else {
        None
    }
}

/// What follows from decoding a response.
pub open spec fn response_result(
    decoded: Result<MessageView, Seq<char>>,
    expected_id: u16,
    server: SocketAddrView,
) -> Result<MessageView, EcErrorView> {
    match decoded {
        Err(m) => Err(EcErrorView::Runtime("dns response decode failed: "@ + m)),
        Ok(m) => match response_failure(m, expected_id, server) {
            Some(e) => Err(e),
            None => Ok(m),
        },
    }
}

/// The response as decoded, or why it is of no use.
pub fn check_response(
    decoded: Result<DnsMessage, String>,
    expected_id: u16,
    server: SocketAddr,
) -> (r: EcResult<DnsMessage>)
    ensures
        error::shown(r) == response_result(
            match decoded {
                Ok(m) => Ok(m@),
                Err(e) => Err(e@),
            },
            expected_id,
            server@,
        ),
{
    match decoded {
        Err(m) => Err(
            EcError::Runtime("dns response decode failed: ".to_owned().concat(m.as_str())),
        ),
        Ok(m) => {
            let from = server.to_string();
            if m.id != expected_id {
                let wanted = text::decimal_u64(expected_id as u64);
                let got = text::decimal_u64(m.id as u64);
                Err(
                    EcError::Runtime(
                        "dns response id mismatch from ".to_owned().concat(from.as_str()).concat(
                            ": expected ",
                        ).concat(wanted.as_str()).concat(", got ").concat(got.as_str()),
                    ),
                )
            } else if !m.is_response {
                Err(
                    EcError::Runtime(
                        "dns response message type is not response from ".to_owned().concat(
                            from.as_str(),
                        ),
                    ),
                )
            } else if m.response_code != 0 {
                Err(
                    EcError::Runtime(
                        "dns response code from ".to_owned().concat(from.as_str()).concat(
                            ": ",
                        ).concat(m.response_text.as_str()),
                    ),
                )
            } else {
                Ok(m)
            }
        },
    }
}

/// The response that a payload holds, if it answers the query with the given id.
pub fn decode_dns_response(payload: &[u8], expected_id: u16, server: SocketAddr) -> (r: EcResult<
    DnsMessage,
>)
    ensures
        error::shown(r) == response_result(dns_message(payload@), expected_id, server@),
        r matches Ok(m) ==> {
            &&& has_header(m@, payload@)
            &&& m@.id == expected_id
            &&& m@.is_response
        },
{
    let decoded = decode_message(payload);
    check_response(decoded, expected_id, server)
}

/// The address of the first A record among the answers.
pub open spec fn first_address(answers: Seq<Option<Ipv4Addr>>) -> Option<Ipv4Addr>
    decreases answers.len(),
{
    if answers.len() == 0 {
        None
    } else {
        match answers[0] {
            Some(ip) => Some(ip),
            None => first_address(answers.skip(1)),
        }
    }
}

/// The address of the first A record, or an error that names the server.
pub open spec fn address_result(m: MessageView, server: SocketAddrView) -> Result<
    Ipv4Addr,
    EcErrorView,
> {
    match first_address(m.answers) {
        Some(ip) => Ok(ip),
        None => Err(EcErrorView::Runtime("dns no A answer from "@ + server.text())),
    }
}

/// The address of the first A record of a response.
pub fn extract_first_ipv4(message: &DnsMessage, server: SocketAddr) -> (r: EcResult<Ipv4Addr>)
    ensures
        match r {
            Ok(ip) => address_result(message@, server@) == Ok::<Ipv4Addr, EcErrorView>(ip),
            Err(e) => address_result(message@, server@) == Err::<Ipv4Addr, EcErrorView>(e@),
        },
{
    let ghost all = message.answers@;
    assert(all.skip(0) == all);
    for i in 0..message.answers.len()
        invariant
            all == message.answers@,
            first_address(all) == first_address(all.skip(i as int)),
    {
        assert(all.skip(i as int).skip(1) == all.skip(i + 1));
        match message.answers[i] {
            Some(ip) => {
                return Ok(ip);
            },
            None => {},
        }
    }
    let from = server.to_string();
    Err(EcError::Runtime("dns no A answer from ".to_owned().concat(from.as_str())))
}

/// What a datagram means to a lookup.
#[derive(Debug)]
pub enum UdpQueryResult {
    /// It comes from somebody else.
    Foreign,
    /// The answer, in full.
    Complete(DnsMessage),
    /// The answer did not fit; it is to be asked for over TCP.
    Truncated,
}

/// What a datagram means to a lookup, as plain values.
#[verifier::ext_equal]
pub ghost enum UdpView {
    Foreign,
    Complete(MessageView),
    Truncated,
}

impl View for UdpQueryResult {
    type V = UdpView;

    open spec fn view(&self) -> UdpView {
        match *self {
            UdpQueryResult::Foreign => UdpView::Foreign,
            UdpQueryResult::Complete(m) => UdpView::Complete(m@),
            UdpQueryResult::Truncated => UdpView::Truncated,
        }
    }
}

/// What a datagram means to a lookup, given who sent it and what was read in it.
pub open spec fn udp_result(
    from_server: bool,
    decoded: Result<MessageView, Seq<char>>,
    id: u16,
    server: SocketAddrView,
) -> Result<UdpView, EcErrorView> {
    if !from_server {
        Ok(UdpView::Foreign)
    } else {
        match response_result(decoded, id, server) {
            Err(e) => Err(e),
            Ok(m) => if m.truncated {
                Ok(UdpView::Truncated)
            } else {
                Ok(UdpView::Complete(m))
            },
        }
    }
}

/// Takes a datagram that came while the server was asked.
pub fn query_udp(payload: &[u8], from_server: bool, id: u16, server: SocketAddr) -> (r: EcResult<
    UdpQueryResult,
>)
    ensures
        !from_server ==> r matches Ok(UdpQueryResult::Foreign),
        from_server ==> match response_result(dns_message(payload@), id, server@) {
            Err(e) => r matches Err(f) && f@ == e,
            Ok(m) => if m.truncated {
                r matches Ok(UdpQueryResult::Truncated)
            } else {
                r matches Ok(UdpQueryResult::Complete(got)) && got@ == m
            },
        },
        error::shown(r) == udp_result(from_server, dns_message(payload@), id, server@),
{
    if !from_server {
        return Ok(UdpQueryResult::Foreign);
    }
    match decode_dns_response(payload, id, server) {
        Err(e) => Err(e),
        Ok(m) => if m.truncated {
            Ok(UdpQueryResult::Truncated)
        } else {
            Ok(UdpQueryResult::Complete(m))
        },
    }
}

/// The error when no datagram of the server came in time.
pub fn udp_silence(server: SocketAddr) -> (r: EcError)
    ensures
        r@ == EcErrorView::Runtime(
            "dns udp recv failed: no valid response from "@ + server@.text(),
        ),
{
    let from = server.to_string();
    EcError::Runtime(
        "dns udp recv failed: no valid response from ".to_owned().concat(from.as_str()),
    )
}

/// A query as it goes over TCP: its length in two bytes, the higher first, and the query.
pub open spec fn tcp_frame(request: Seq<u8>) -> Seq<u8> {
    seq![(request.len() / 256) as u8, (request.len() % 256) as u8] + request
}

/// The length of the response that follows its first two bytes.
pub open spec fn tcp_length(head: Seq<u8>) -> int {
    head[0] * 256 + head[1]
}

/// A query as it goes over TCP: its length in two bytes, the higher first, and the query.
pub fn query_tcp(request: &[u8]) -> (r: EcResult<Vec<u8>>)
    ensures
        error::shown(r) == if request@.len() <= 65535 {
            Ok(
                seq![(request@.len() / 256) as u8, (request@.len() % 256) as u8] + request@,
            )
        } else {
            Err(EcErrorView::Runtime("dns tcp request is too large"@))
        },
        r matches Ok(bytes) ==> bytes@ == tcp_frame(request@),
{
    let n: usize = request.len();
    if n > 65535 {
        return Err(EcError::Runtime("dns tcp request is too large".to_owned()));
    }
    let mut out: Vec<u8> = Vec::new();
    out.push((n / 256) as u8);
    out.push((n % 256) as u8);
    let mut body = vstd::slice::slice_to_vec(request);
    out.append(&mut body);
    assert(out@ =~= seq![(request@.len() / 256) as u8, (request@.len() % 256) as u8] + request@);
    Ok(out)
}

/// The length of the response that follows, from its two bytes.
pub fn tcp_response_length(head: [u8; 2]) -> (r: EcResult<usize>)
    ensures
        ({
            let n = head@[0] * 256 + head@[1];
            match r {
                Ok(len) => n != 0 && len == n,
                Err(e) => n == 0 && e@ == EcErrorView::Runtime(
                    "dns tcp response length is invalid: "@ + text::decimal(n),
                ),
            }
        }),
        r matches Ok(len) ==> len == tcp_length(head@),
{
    let n: usize = (head[0] as usize) * 256 + (head[1] as usize);
    if n == 0 || n > DNS_TCP_MAX_PAYLOAD {
        let shown = text::decimal_u64(n as u64);
        return Err(
            EcError::Runtime(
                "dns tcp response length is invalid: ".to_owned().concat(shown.as_str()),
            ),
        );
    }
    Ok(n)
}

/// What to do about a server that was asked over UDP.
#[derive(Debug)]
pub enum ServerStep {
    /// Wait for another datagram.
    Listen,
    /// Ask again over TCP.
    Tcp,
    /// The server has answered, or failed.
    Done(EcResult<Ipv4Addr>),
}

/// What to do about a server that was asked over UDP, as plain values.
#[verifier::ext_equal]
pub ghost enum ServerStepView {
    Listen,
    Tcp,
    Done(Result<Ipv4Addr, EcErrorView>),
}

impl View for ServerStep {
    type V = ServerStepView;

    open spec fn view(&self) -> ServerStepView {
        match *self {
            ServerStep::Listen => ServerStepView::Listen,
            ServerStep::Tcp => ServerStepView::Tcp,
            ServerStep::Done(answer) => ServerStepView::Done(answer_view(answer)),
        }
    }
}

/// What to do about a server that was asked over UDP, given what came.
pub open spec fn server_step(received: Result<UdpView, EcErrorView>, server: SocketAddrView)
    -> ServerStepView {
    match received {
        Err(e) => ServerStepView::Done(Err(e)),
        Ok(UdpView::Foreign) => ServerStepView::Listen,
        Ok(UdpView::Truncated) => ServerStepView::Tcp,
        Ok(UdpView::Complete(m)) => ServerStepView::Done(address_result(m, server)),
    }
}

/// What to do about a server that was asked over UDP, once a datagram came or the time was
/// over.
pub fn query_server(received: EcResult<UdpQueryResult>, server: SocketAddr) -> (r: ServerStep)
    ensures
        match received {
            Err(e) => r == ServerStep::Done(Err(e)),
            Ok(UdpQueryResult::Foreign) => r is Listen,
            Ok(UdpQueryResult::Truncated) => r is Tcp,
            Ok(UdpQueryResult::Complete(m)) => r matches ServerStep::Done(got) && answer_view(got)
                == address_result(m@, server@),
        },
        r@ == server_step(error::shown(received), server@),
{
    match received {
        Err(e) => ServerStep::Done(Err(e)),
        Ok(UdpQueryResult::Foreign) => ServerStep::Listen,
        Ok(UdpQueryResult::Truncated) => ServerStep::Tcp,
        Ok(UdpQueryResult::Complete(m)) => ServerStep::Done(extract_first_ipv4(&m, server)),
    }
}

/// The address that a response over TCP gives, given what was read in it.
pub open spec fn tcp_answer(
    decoded: Result<MessageView, Seq<char>>,
    id: u16,
    server: SocketAddrView,
) -> Result<Ipv4Addr, EcErrorView> {
    match response_result(decoded, id, server) {
        Err(e) => Err(e),
        Ok(m) => address_result(m, server),
    }
}

/// The address that a response over TCP gives. A response that is truncated even there is
/// taken as it is.
pub fn finish_tcp_query(payload: &[u8], id: u16, server: SocketAddr) -> (r: EcResult<Ipv4Addr>)
    ensures
        answer_view(r) == match response_result(dns_message(payload@), id, server@) {
            Err(e) => Err(e),
            Ok(m) => address_result(m, server@),
        },
        answer_view(r) == tcp_answer(dns_message(payload@), id, server@),
{
    match decode_dns_response(payload, id, server) {
        Err(e) => Err(e),
        Ok(m) => extract_first_ipv4(&m, server),
    }
}

// ---------------------------------------------------------------------------
// The lookup
// ---------------------------------------------------------------------------

/// Where an address comes from.
#[derive(Debug, Clone, Copy, PartialEq, Eq)]
pub enum ResolveSource {
    Cache,
    Server(SocketAddr),
}

/// An address and where it comes from.
#[derive(Debug, Clone, Copy, PartialEq, Eq)]
pub struct ResolveResult {
    pub ip: Ipv4Addr,
    pub source: ResolveSource,
}

/// Where an address comes from, as plain values.
pub ghost enum SourceView {
    Cache,
    Server(SocketAddrView),
}

/// A resolved address as plain values.
pub ghost struct ResolvedView {
    pub ip: Ipv4Addr,
    pub source: SourceView,
}

impl View for ResolveResult {
    type V = ResolvedView;

    open spec fn view(&self) -> ResolvedView {
        ResolvedView {
            ip: self.ip,
            source: match self.source {
                ResolveSource::Cache => SourceView::Cache,
                ResolveSource::Server(a) => SourceView::Server(a@),
            },
        }
    }
}

/// A lookup under way: the servers that can be asked, and which of them is being asked.
#[derive(Debug)]
pub struct Lookup {
    rc_id: i32,
    host: String,
    servers: Vec<SocketAddr>,
    position: usize,
}

/// What a lookup asks for next.
#[derive(Debug)]
pub enum LookupStep {
    /// Ask this server, and report what came of it.
    Ask(SocketAddr),
    /// The lookup is over.
    Done(EcResult<ResolveResult>),
}

/// A lookup as plain values.
pub ghost struct LookupView {
    pub rc_id: i32,
    pub host: Seq<char>,
    pub servers: Seq<SocketAddrView>,
    pub position: int,
}

/// What a lookup asks for next, as plain values.
pub ghost enum StepView {
    Ask(SocketAddrView),
    Done(Result<ResolvedView, EcErrorView>),
}

impl View for Lookup {
    type V = LookupView;

    closed spec fn view(&self) -> LookupView {
        LookupView {
            rc_id: self.rc_id,
            host: self.host@,
            servers: text::views(self.servers@),
            position: self.position as int,
        }
    }
}

impl View for LookupStep {
    type V = StepView;

    open spec fn view(&self) -> StepView {
        match *self {
            LookupStep::Ask(a) => StepView::Ask(a@),
            LookupStep::Done(r) => StepView::Done(error::shown(r)),
        }
    }
}

impl LookupView {
    /// A server is being asked.
    pub open spec fn asking(self) -> bool {
        0 <= self.position < self.servers.len()
    }

    /// The error when the servers are used up, the last of them having failed as given.
    pub open spec fn exhausted(self, last: EcErrorView) -> EcErrorView {
        EcErrorView::Runtime(
            "dnsserver lookup failed for "@ + self.host + "; "@ + self.servers[self.position].text()
                + ": "@ + error::concise(last.text()),
        )
    }

    /// The step once the server being asked has answered.
    pub open spec fn after(self, answer: Result<Ipv4Addr, EcErrorView>) -> StepView {
        match answer {
            Ok(ip) => StepView::Done(
                Ok(ResolvedView { ip, source: SourceView::Server(self.servers[self.position]) }),
            ),
            Err(e) => if self.position + 1 < self.servers.len() {
                StepView::Ask(self.servers[self.position + 1])
            } else {
                StepView::Done(Err(self.exhausted(e)))
            },
        }
    }

    /// The lookup with the next server being asked.
    pub open spec fn advanced(self) -> LookupView {
        LookupView { position: self.position + 1, ..self }
    }
}

/// An answer as plain values.
pub open spec fn answer_view(answer: EcResult<Ipv4Addr>) -> Result<Ipv4Addr, EcErrorView> {
    match answer {
        Ok(ip) => Ok(ip),
        Err(e) => Err(e@),
    }
}

/// A lookup, what it asks for next, and the kept addresses.
#[verifier::ext_equal]
pub ghost struct RunView {
    pub lookup: LookupView,
    pub step: StepView,
    pub cache: Map<(i32, Seq<char>), (Ipv4Addr, u64)>,
}

/// A lookup, what it asks for next, and the kept addresses, as plain values.
pub open spec fn run_view(lookup: Lookup, step: LookupStep, cache: DnsCache) -> RunView {
    RunView { lookup: lookup@, step: step@, cache: cache@ }
}

/// What the cache answers for a key at a time.
pub open spec fn cached(
    cache: Map<(i32, Seq<char>), (Ipv4Addr, u64)>,
    key: (i32, Seq<char>),
    now: u64,
) -> Option<Ipv4Addr> {
    if cache.contains_key(key) && cache[key].1 > now {
        Some(cache[key].0)
    } else {
        None
    }
}

/// A lookup of a host that has just begun: an address that is kept ends it, and an entry
/// whose time is over is dropped.
pub open spec fn begun(
    cache: Map<(i32, Seq<char>), (Ipv4Addr, u64)>,
    now: u64,
    rc_id: i32,
    host: Seq<char>,
    servers: Seq<Seq<char>>,
) -> RunView {
    let key = (rc_id, host);
    let lookup = LookupView { rc_id, host, servers: usable_servers(servers), position: 0 };
    match cached(cache, key, now) {
        Some(ip) => RunView {
            lookup,
            step: StepView::Done(Ok(ResolvedView { ip, source: SourceView::Cache })),
            cache,
        },
        None => RunView {
            lookup,
            step: if lookup.servers.len() == 0 {
                StepView::Done(
                    Err(EcErrorView::Runtime("dnsserver lookup has no valid server address"@)),
                )
            } else {
                StepView::Ask(lookup.servers[0])
            },
            cache: cache.remove(key),
        },
    }
}

impl LookupView {
    /// The lookup once the server being asked has answered: an address ends it and is kept, a
    /// failure leads on to the next server.
    pub open spec fn answered(
        self,
        cache: Map<(i32, Seq<char>), (Ipv4Addr, u64)>,
        now: u64,
        answer: Result<Ipv4Addr, EcErrorView>,
    ) -> RunView {
        match answer {
            Ok(ip) => RunView {
                lookup: self,
                step: self.after(answer),
                cache: cache.insert((self.rc_id, self.host), (ip, (now + DNS_CACHE_TTL) as u64)),
            },
            Err(_) => RunView { lookup: self.advanced(), step: self.after(answer), cache },
        }
    }
}

/// Begins to look a host up: the cache is asked first, then the servers in their order.
pub fn resolve_first_ipv4(
    cache: &mut DnsCache,
    now: u64,
    rc_id: i32,
    host: &str,
    dns_servers: &Vec<String>,
) -> (r: (Lookup, LookupStep))
    requires
        old(cache).wf(),
    ensures
        final(cache).wf(),
        run_view(r.0, r.1, *final(cache)) == begun(
            old(cache)@,
            now,
            rc_id,
            host@,
            text::views(dns_servers@),
        ),
{
    let servers = parse_servers(dns_servers);
    let lookup = Lookup { rc_id, host: host.to_owned(), servers, position: 0 };
    match cache.cache_get(rc_id, host, now) {
        Some(ip) => {
            let found = ResolveResult { ip, source: ResolveSource::Cache };
            (lookup, LookupStep::Done(Ok(found)))
        },
        None => {
            if lookup.servers.len() == 0 {
                let e = EcError::Runtime(
                    "dnsserver lookup has no valid server address".to_owned(),
                );
                (lookup, LookupStep::Done(Err(e)))
            } else {
                let first = lookup.servers[0];
                assert(text::views(lookup.servers@)[0] == first@);
                (lookup, LookupStep::Ask(first))
            }
        },
    }
}

impl Lookup {
    /// Takes the answer of the server being asked: the first address ends the lookup and is
    /// kept, and a failure leads on to the next server.
    pub fn answer(&mut self, cache: &mut DnsCache, now: u64, answer: EcResult<Ipv4Addr>) -> (r:
        LookupStep)
        requires
            old(self)@.asking(),
            old(cache).wf(),
            now <= u64::MAX - DNS_CACHE_TTL,
        ensures
            final(cache).wf(),
            run_view(*final(self), r, *final(cache)) == old(self)@.answered(
                old(cache)@,
                now,
                answer_view(answer),
            ),
    {
        let count: usize = self.servers.len();
        let server = self.servers[self.position];
        assert(text::views(self.servers@)[self.position as int] == server@);
        match answer {
            Ok(ip) => {
                cache.cache_put(self.rc_id, self.host.as_str(), ip, now);
                let found = ResolveResult { ip, source: ResolveSource::Server(server) };
                LookupStep::Done(Ok(found))
            },
            Err(e) => {
                self.position = self.position + 1;
                if self.position < count {
                    let next = self.servers[self.position];
                    assert(text::views(self.servers@)[self.position as int] == next@);
                    LookupStep::Ask(next)
                } else {
                    let from = server.to_string();
                    let why = error::concise_error(&e);
                    LookupStep::Done(
                        Err(
                            EcError::Runtime(
                                "dnsserver lookup failed for ".to_owned().concat(
                                    self.host.as_str(),
                                ).concat("; ").concat(from.as_str()).concat(": ").concat(
                                    why.as_str(),
                                ),
                            ),
                        ),
                    )
                }
            },
        }
    }
}

// ---------------------------------------------------------------------------
// Laws
// ---------------------------------------------------------------------------

/// How a lookup ends if the servers from the one being asked on answer as given.
pub open spec fn outcome(l: LookupView, answers: Seq<Result<Ipv4Addr, EcErrorView>>) -> StepView
    decreases answers.len(),
{
    if answers.len() == 0 {
        StepView::Ask(l.servers[l.position])
    } else {
        match l.after(answers[0]) {
            StepView::Done(r) => StepView::Done(r),
            StepView::Ask(_) => outcome(l.advanced(), answers.skip(1)),
        }
    }
}

/// A query that comes back as it was sent is not taken for its answer.
pub proof fn law_echo_is_no_answer(
    id: u16,
    payload: Seq<u8>,
    m: MessageView,
    server: SocketAddrView,
)
    requires
        query_header(id, true).is_prefix_of(payload),
        has_header(m, payload),
    ensures
        response_failure(m, id, server) is Some,
{
    assert(payload[2] == query_header(id, true)[2]);
}

/// The first server that gives an address decides, whatever stands behind it in the list.
pub proof fn law_first_answer_wins(
    l: LookupView,
    answers: Seq<Result<Ipv4Addr, EcErrorView>>,
    k: int,
    ip: Ipv4Addr,
)
    requires
        l.asking(),
        0 <= k < answers.len(),
        l.position + k < l.servers.len(),
        answers[k] == Ok::<Ipv4Addr, EcErrorView>(ip),
        forall|j: int| 0 <= j < k ==> (#[trigger] answers[j]) is Err,
    ensures
        outcome(l, answers) == StepView::Done(
            Ok(ResolvedView { ip, source: SourceView::Server(l.servers[l.position + k]) }),
        ),
    decreases k,
{
    if k > 0 {
        assert(answers[0] is Err);
        assert forall|j: int| 0 <= j < k - 1 implies (#[trigger] answers.skip(1)[j]) is Err by {
            assert(answers.skip(1)[j] == answers[j + 1]);
        }
        law_first_answer_wins(l.advanced(), answers.skip(1), k - 1, ip);
    }
}

/// A lookup fails only when every server has failed; the error is that of the last one.
pub proof fn law_all_failures_fail(l: LookupView, answers: Seq<Result<Ipv4Addr, EcErrorView>>)
    requires
        l.asking(),
        answers.len() == l.servers.len() - l.position,
        forall|j: int| 0 <= j < answers.len() ==> (#[trigger] answers[j]) is Err,
    ensures
        outcome(l, answers) == StepView::Done(
            Err(
                LookupView { position: l.servers.len() - 1, ..l }.exhausted(
                    answers.last()->Err_0,
                ),
            ),
        ),
    decreases answers.len(),
{
    assert(answers[0] is Err);
    if answers.len() > 1 {
        assert forall|j: int| 0 <= j < answers.skip(1).len() implies (#[trigger] answers.skip(
            1,
        )[j]) is Err by {
            assert(answers.skip(1)[j] == answers[j + 1]);
        }
        law_all_failures_fail(l.advanced(), answers.skip(1));
        assert(answers.skip(1).last() == answers.last());
    }
}

/// An address that was kept is found for as long as it is to be kept, and not after; what is
/// kept for other keys is not touched.
pub proof fn law_cache_keeps_until_expiry(
    cache: Map<(i32, Seq<char>), (Ipv4Addr, u64)>,
    key: (i32, Seq<char>),
    ip: Ipv4Addr,
    put_at: u64,
    asked_at: u64,
    other: (i32, Seq<char>),
)
    requires
        put_at <= u64::MAX - DNS_CACHE_TTL,
        other != key,
    ensures
        ({
            let kept = cache.insert(key, (ip, (put_at + DNS_CACHE_TTL) as u64));
            &&& asked_at < put_at + DNS_CACHE_TTL ==> cached(kept, key, asked_at) == Some(ip)
            &&& asked_at >= put_at + DNS_CACHE_TTL ==> cached(kept, key, asked_at) is None
            &&& cached(kept, other, asked_at) == cached(cache, other, asked_at)
        }),
{
}

/// A lookup to its end, if the servers from the one being asked on answer as given, each at
/// its time.
pub open spec fn run_to_end(run: RunView, answers: Seq<(u64, Result<Ipv4Addr, EcErrorView>)>)
    -> RunView
    decreases answers.len(),
{
    if answers.len() == 0 || run.step is Done {
        run
    } else {
        run_to_end(
            run.lookup.answered(run.cache, answers[0].0, answers[0].1),
            answers.skip(1),
        )
    }
}

/// The servers that a lookup asks before its end, if they answer as given.
pub open spec fn asked(run: RunView, answers: Seq<(u64, Result<Ipv4Addr, EcErrorView>)>) -> Seq<
    SocketAddrView,
>
    decreases answers.len(),
{
    match run.step {
        StepView::Done(_) => Seq::empty(),
        StepView::Ask(server) => if answers.len() == 0 {
            seq![server]
        } else {
            seq![server] + asked(
                run.lookup.answered(run.cache, answers[0].0, answers[0].1),
                answers.skip(1),
            )
        },
    }
}

/// The server at `k` is the first of those that answer as given to give an address.
pub open spec fn first_to_answer(
    answers: Seq<(u64, Result<Ipv4Addr, EcErrorView>)>,
    k: int,
) -> bool {
    &&& 0 <= k < answers.len()
    &&& answers[k].1 is Ok
    &&& forall|j: int| 0 <= j < k ==> (#[trigger] answers[j]).1 is Err
}

proof fn lemma_run_finds(
    run: RunView,
    answers: Seq<(u64, Result<Ipv4Addr, EcErrorView>)>,
    k: int,
)
    requires
        run.lookup.asking(),
        run.step == StepView::Ask(run.lookup.servers[run.lookup.position]),
        answers.len() == run.lookup.servers.len() - run.lookup.position,
        first_to_answer(answers, k),
    ensures
        ({
            let l = run.lookup;
            let end = run_to_end(run, answers);
            let ip = answers[k].1->Ok_0;
            &&& end.step == StepView::Done(
                Ok(ResolvedView { ip, source: SourceView::Server(l.servers[l.position + k]) }),
            )
            &&& end.cache == run.cache.insert(
                (l.rc_id, l.host),
                (ip, (answers[k].0 + DNS_CACHE_TTL) as u64),
            )
            &&& asked(run, answers) == l.servers.subrange(l.position, l.position + k + 1)
        }),
    decreases k,
{
    let l = run.lookup;
    let next = l.answered(run.cache, answers[0].0, answers[0].1);
    if k > 0 {
        let rest = answers.skip(1);
        assert(answers[0].1 is Err);
        assert forall|j: int| 0 <= j < k - 1 implies (#[trigger] rest[j]).1 is Err by {
            assert(rest[j] == answers[j + 1]);
        }
        assert(rest[k - 1] == answers[k]);
        lemma_run_finds(next, rest, k - 1);
        assert(asked(run, answers) =~= l.servers.subrange(l.position, l.position + k + 1));
    } else {
        assert(run_to_end(next, answers.skip(1)) == next);
        assert(asked(next, answers.skip(1)) =~= Seq::<SocketAddrView>::empty());
        assert(asked(run, answers) =~= l.servers.subrange(l.position, l.position + 1));
    }
}

proof fn lemma_run_fails(run: RunView, answers: Seq<(u64, Result<Ipv4Addr, EcErrorView>)>)
    requires
        run.lookup.asking(),
        run.step == StepView::Ask(run.lookup.servers[run.lookup.position]),
        answers.len() == run.lookup.servers.len() - run.lookup.position,
        forall|j: int| 0 <= j < answers.len() ==> (#[trigger] answers[j]).1 is Err,
    ensures
        ({
            let l = run.lookup;
            let end = run_to_end(run, answers);
            &&& end.step == StepView::Done(
                Err(
                    LookupView { position: l.servers.len() - 1, ..l }.exhausted(
                        answers.last().1->Err_0,
                    ),
                ),
            )
            &&& end.cache == run.cache
            &&& asked(run, answers) == l.servers.skip(l.position)
        }),
    decreases answers.len(),
{
    let l = run.lookup;
    let rest = answers.skip(1);
    let next = l.answered(run.cache, answers[0].0, answers[0].1);
    assert(answers[0].1 is Err);
    if answers.len() > 1 {
        assert forall|j: int| 0 <= j < rest.len() implies (#[trigger] rest[j]).1 is Err by {
            assert(rest[j] == answers[j + 1]);
        }
        lemma_run_fails(next, rest);
        assert(rest.last() == answers.last());
    } else {
        assert(run_to_end(next, rest) == next);
        assert(asked(next, rest) =~= Seq::<SocketAddrView>::empty());
    }
    assert(asked(run, answers) =~= l.servers.skip(l.position));
}

/// A lookup of a host for which no address is kept asks the servers of the list in their
/// order, those that are no addresses left out, and none behind the first that gives an
/// address. That address is the result, and it is kept: until its time is over the same
/// lookup, at whatever servers, gives it again and asks nobody. Without a server to ask, and
/// where all of them fail, the lookup fails, the latter with the error of the last server, and
/// nothing is kept.
pub proof fn law_lookup_from_beginning_to_end(
    cache: Map<(i32, Seq<char>), (Ipv4Addr, u64)>,
    now: u64,
    rc_id: i32,
    host: Seq<char>,
    servers: Seq<Seq<char>>,
    answers: Seq<(u64, Result<Ipv4Addr, EcErrorView>)>,
)
    requires
        cached(cache, (rc_id, host), now) is None,
        answers.len() == usable_servers(servers).len(),
        forall|j: int|
            0 <= j < answers.len() ==> (#[trigger] answers[j]).0 <= u64::MAX - DNS_CACHE_TTL,
    ensures
        ({
            let key = (rc_id, host);
            let usable = usable_servers(servers);
            let run = begun(cache, now, rc_id, host, servers);
            let end = run_to_end(run, answers);
            &&& usable.len() == 0 ==> {
                &&& end.step == StepView::Done(
                    Err(EcErrorView::Runtime("dnsserver lookup has no valid server address"@)),
                )
                &&& end.cache == cache.remove(key)
                &&& asked(run, answers).len() == 0
            }
            &&& forall|k: int| #[trigger]
                first_to_answer(answers, k) ==> {
                    let ip = answers[k].1->Ok_0;
                    &&& end.step == StepView::Done(
                        Ok(ResolvedView { ip, source: SourceView::Server(usable[k]) }),
                    )
                    &&& end.cache == cache.insert(
                        key,
                        (ip, (answers[k].0 + DNS_CACHE_TTL) as u64),
                    )
                    &&& asked(run, answers) == usable.take(k + 1)
                    &&& forall|later: u64, others: Seq<Seq<char>>|
                        later < answers[k].0 + DNS_CACHE_TTL ==> (#[trigger] begun(
                            end.cache,
                            later,
                            rc_id,
                            host,
                            others,
                        )).step == StepView::Done(
                            Ok(ResolvedView { ip, source: SourceView::Cache }),
                        )
                }
            &&& usable.len() > 0 && (forall|j: int|
                0 <= j < answers.len() ==> (#[trigger] answers[j]).1 is Err) ==> {
                &&& end.step == StepView::Done(
                    Err(
                        EcErrorView::Runtime(
                            "dnsserver lookup failed for "@ + host + "; "@ + usable.last().text()
                                + ": "@ + error::concise(answers.last().1->Err_0.text()),
                        ),
                    ),
                )
                &&& end.cache == cache.remove(key)
                &&& asked(run, answers) == usable
            }
        }),
{
    let key = (rc_id, host);
    let usable = usable_servers(servers);
    let run = begun(cache, now, rc_id, host, servers);
    let end = run_to_end(run, answers);
    assert forall|k: int| #[trigger] first_to_answer(answers, k) implies {
        let ip = answers[k].1->Ok_0;
        &&& end.step == StepView::Done(
            Ok(ResolvedView { ip, source: SourceView::Server(usable[k]) }),
        )
        &&& end.cache == cache.insert(key, (ip, (answers[k].0 + DNS_CACHE_TTL) as u64))
        &&& asked(run, answers) == usable.take(k + 1)
    } by {
        let ip = answers[k].1->Ok_0;
        lemma_run_finds(run, answers, k);
        assert(end.cache =~= cache.insert(key, (ip, (answers[k].0 + DNS_CACHE_TTL) as u64)));
        assert(usable.subrange(0, k + 1) =~= usable.take(k + 1));
    }
    if usable.len() > 0 && (forall|j: int|
        0 <= j < answers.len() ==> (#[trigger] answers[j]).1 is Err) {
        lemma_run_fails(run, answers);
        assert(usable.skip(0) =~= usable);
    }
}

proof fn lemma_first_address(answers: Seq<Option<Ipv4Addr>>, k: int)
    requires
        0 <= k <= answers.len(),
        forall|j: int| 0 <= j < k ==> (#[trigger] answers[j]) is None,
        k < answers.len() ==> answers[k] is Some,
    ensures
        first_address(answers) == if k < answers.len() {
            answers[k]
        } else {
            None
        },
    decreases k,
{
    if k > 0 {
        assert(answers[0] is None);
        assert forall|j: int| 0 <= j < k - 1 implies (#[trigger] answers.skip(1)[j]) is None by {
            assert(answers.skip(1)[j] == answers[j + 1]);
        }
        lemma_first_address(answers.skip(1), k - 1);
    }
}

/// The address of a response is that of its first A record, wherever it stands among the
/// answers; there is none only if no answer is an A record.
#[verifier::rlimit(40)]
pub proof fn law_first_a_record_is_the_address(
    m: MessageView,
    server: SocketAddrView,
    k: int,
    ip: Ipv4Addr,
)
    ensures
        0 <= k < m.answers.len() && m.answers[k] == Some(ip) && (forall|j: int|
            0 <= j < k ==> (#[trigger] m.answers[j]) is None) ==> address_result(m, server) == Ok::<
            Ipv4Addr,
            EcErrorView,
        >(ip),
        address_result(m, server) is Err <==> forall|j: int|
            0 <= j < m.answers.len() ==> (#[trigger] m.answers[j]) is None,
        address_result(m, server) matches Err(e) ==> e == EcErrorView::Runtime(
            "dns no A answer from "@ + server.text(),
        ),
{
    let a = m.answers;
    if 0 <= k < a.len() && a[k] == Some(ip) && (forall|j: int|
        0 <= j < k ==> (#[trigger] a[j]) is None) {
        lemma_first_address(a, k);
    }
    if forall|j: int| 0 <= j < a.len() ==> (#[trigger] a[j]) is None {
        lemma_first_address(a, a.len() as int);
    } else {
        let j = choose|j: int| 0 <= j < a.len() && !((#[trigger] a[j]) is None);
        lemma_some_first_answer(a, j);
        let f = choose|f: int|
            0 <= f < a.len() && (#[trigger] a[f]) is Some && forall|i: int|
                0 <= i < f ==> (#[trigger] a[i]) is None;
        lemma_first_address(a, f);
    }
}

proof fn lemma_some_first_answer(a: Seq<Option<Ipv4Addr>>, j: int)
    requires
        0 <= j < a.len(),
        a[j] is Some,
    ensures
        exists|f: int|
            0 <= f < a.len() && (#[trigger] a[f]) is Some && forall|i: int|
                0 <= i < f ==> (#[trigger] a[i]) is None,
    decreases j,
{
    if !(forall|i: int| 0 <= i < j ==> (#[trigger] a[i]) is None) {
        let i = choose|i: int| 0 <= i < j && !((#[trigger] a[i]) is None);
        lemma_some_first_answer(a, i);
    }
}

/// A message is taken as the answer to a query if and only if it carries the query's number,
/// is a response and reports no error; then it is taken as it is.
pub proof fn law_only_the_own_response_is_taken(
    m: MessageView,
    expected_id: u16,
    server: SocketAddrView,
    words: Seq<char>,
)
    ensures
        response_result(Ok(m), expected_id, server) is Ok <==> m.id == expected_id && m.is_response
            && m.response_code == 0,
        response_result(Ok(m), expected_id, server) matches Ok(taken) ==> taken == m,
        response_result(Err(words), expected_id, server) is Err,
{
}

/// A server that is written as an address with a port is asked there; one that is written as an
/// address alone is asked at port 53. White space round it does not matter.
#[verifier::rlimit(40)]
pub proof fn law_servers_are_asked_where_they_say(
    w: Seq<char>,
    ip: Ipv4Addr,
    groups: Seq<u16>,
    port: u16,
    v: Seq<char>,
)
    requires
        groups.len() == 8,
        forall|i: int| 0 <= i < w.len() ==> text::is_white(#[trigger] w[i]),
        forall|i: int| 0 <= i < v.len() ==> text::is_white(#[trigger] v[i]),
    ensures
        server_text(w + ip.text() + v) == Some(SocketAddrView::V4 { ip, port: 53 }),
        server_text(w + (SocketAddrView::V4 { ip, port }).text() + v) == Some(
            SocketAddrView::V4 { ip, port },
        ),
        server_text(w + addr::ipv6_display(groups) + v) == Some(
            SocketAddrView::V6 { groups, port: 53, flow: 0, scope: 0 },
        ),
{
    let a = ip.text();
    let b = (SocketAddrView::V4 { ip, port }).text();
    let c = addr::ipv6_display(groups);
    addr::lemma_ipv4_is_no_socket(ip);
    addr::law_ipv4_text_is_read_back(ip);
    addr::law_socket_v4_text_is_read_back(ip, port);
    addr::lemma_v4_socket_is_black(ip, port);
    addr::law_ipv6_text_is_read_back(groups);
    addr::lemma_ipv6_is_no_socket(groups);
    text::law_trim_takes_white_space_off(w, a, v);
    text::law_trim_takes_white_space_off(w, b, v);
    text::law_trim_takes_white_space_off(w, c, v);
}

/// The servers of two lists, one behind the other, are those of the one and then those of the
/// other; of a list with one item it is the server that the item names, or nothing.
pub proof fn law_servers_keep_their_order(a: Seq<Seq<char>>, b: Seq<Seq<char>>, one: Seq<char>)
    ensures
        usable_servers(a + b) == usable_servers(a) + usable_servers(b),
        usable_servers(seq![one]) == match server_text(one) {
            Some(server) => seq![server],
            None => Seq::empty(),
        },
{
    let one_server = seq![one];
    let none = Seq::<SocketAddrView>::empty();
    assert(one_server.drop_last() =~= Seq::<Seq<char>>::empty());
    assert(usable_servers(one_server.drop_last()) =~= none);
    match server_text(one) {
        Some(server) => {
            assert(none.push(server) =~= seq![server]);
        },
        None => {},
    }
    lemma_servers_join(a, b);
}

proof fn lemma_servers_join(a: Seq<Seq<char>>, b: Seq<Seq<char>>)
    ensures
        usable_servers(a + b) == usable_servers(a) + usable_servers(b),
    decreases b.len(),
{
    if b.len() == 0 {
        assert(a + b =~= a);
        assert(usable_servers(a) + usable_servers(b) =~= usable_servers(a));
    } else {
        let before = usable_servers(b.drop_last());
        lemma_servers_join(a, b.drop_last());
        assert((a + b).drop_last() =~= a + b.drop_last());
        assert((a + b).last() == b.last());
        match server_text(b.last()) {
            Some(server) => {
                assert((usable_servers(a) + before).push(server) =~= usable_servers(a)
                    + before.push(server));
            },
            None => {},
        }
    }
}

/// A lookup asks for the name with one dot at its end: the one it has, or one that is added.
pub proof fn law_names_end_with_a_dot(host: Seq<char>)
    ensures
        fully_qualified(host + "."@) == host + "."@,
        fully_qualified(host) == host || fully_qualified(host) == host + "."@,
        fully_qualified(host).last() == '.',
        fully_qualified(fully_qualified(host)) == fully_qualified(host),
{
    reveal_strlit(".");
    assert((host + "."@).last() == '.');
}

/// An address is kept for three hundred seconds from the moment at which it came, and a lookup
/// that begins within them gives it without asking; one that begins later asks again.
pub proof fn law_addresses_are_kept_for_five_minutes(
    l: LookupView,
    cache: Map<(i32, Seq<char>), (Ipv4Addr, u64)>,
    came: u64,
    ip: Ipv4Addr,
    later: u64,
    servers: Seq<Seq<char>>,
)
    requires
        l.asking(),
        came <= u64::MAX - 300_000,
    ensures
        ({
            let after = l.answered(cache, came, Ok(ip)).cache;
            let again = begun(after, later, l.rc_id, l.host, servers).step;
            &&& later < came + 300_000 ==> again == StepView::Done(
                Ok(ResolvedView { ip, source: SourceView::Cache }),
            )
            &&& later >= came + 300_000 ==> !(again matches StepView::Done(Ok(_)))
        }),
{
}

/// Addresses are kept for a host under a resource: a lookup of another host, or under another
/// resource, is not answered by them.
pub proof fn law_kept_addresses_are_for_their_host(
    l: LookupView,
    cache: Map<(i32, Seq<char>), (Ipv4Addr, u64)>,
    came: u64,
    ip: Ipv4Addr,
    later: u64,
    rc_id: i32,
    host: Seq<char>,
    servers: Seq<Seq<char>>,
)
    requires
        rc_id != l.rc_id || host != l.host,
    ensures
        begun(l.answered(cache, came, Ok(ip)).cache, later, rc_id, host, servers).step == begun(
            cache,
            later,
            rc_id,
            host,
            servers,
        ).step,
{
}

/// The two bytes in front of a query over TCP say how long it is, and the query follows them as
/// it is.
pub proof fn law_frames_say_their_length(request: Seq<u8>)
    requires
        request.len() <= 65535,
    ensures
        tcp_length(tcp_frame(request).take(2)) == request.len(),
        tcp_frame(request).skip(2) == request,
{
    let frame = tcp_frame(request);
    assert(frame.skip(2) =~= request);
    assert(frame.take(2)[0] == frame[0] && frame.take(2)[1] == frame[1]);
}

/// The id that comes a number of turns after the given one.
pub open spec fn id_after_turns(id: int, turns: nat) -> int
    decreases turns,
{
    if turns == 0 {
        id
    } else {
        id_after(id_after_turns(id, (turns - 1) as nat))
    }
}

/// No id comes again before all the 65536 ids have had their turn, and then the first comes
/// again.
pub proof fn law_ids_take_turns(id: int, turns: nat)
    requires
        0 <= id < 65536,
        turns <= 65536,
    ensures
        0 <= id_after_turns(id, turns) < 65536,
        id_after_turns(id, turns) == id <==> turns == 0 || turns == 65536,
{
    lemma_id_after_turns(id, turns);
}

proof fn lemma_id_after_turns(id: int, turns: nat)
    requires
        0 <= id < 65536,
        turns <= 65536,
    ensures
        id_after_turns(id, turns) == if id + turns < 65536 {
            id + turns
        } else {
            id + turns - 65536
        },
    decreases turns,
{
    if turns > 0 {
        lemma_id_after_turns(id, (turns - 1) as nat);
    }
}

/// A query that could be written is sent as it was written, and one that could not be is an
/// error.
pub proof fn law_queries_are_sent_as_written(bytes: Seq<u8>, e: QueryFailureView)
    ensures
        query_result(Ok(bytes)) == Ok::<Seq<u8>, EcErrorView>(bytes),
        query_result(Err(e)) is Err,
{
}

/// A datagram of somebody else is not heard; a response of the server that was cut off is asked
/// for again over TCP; one that is complete gives the address of its first A record; and any
/// other datagram of the server, or an error, is the failure of the server.
#[verifier::rlimit(40)]
pub proof fn law_servers_answer_over_udp(
    m: MessageView,
    words: Seq<char>,
    id: u16,
    server: SocketAddrView,
    e: EcErrorView,
)
    ensures
        ({
            let fits = m.id == id && m.is_response && m.response_code == 0;
            let step = server_step(udp_result(true, Ok(m), id, server), server);
            &&& server_step(udp_result(false, Ok(m), id, server), server) is Listen
            &&& server_step(udp_result(false, Err(words), id, server), server) is Listen
            &&& fits && m.truncated ==> step is Tcp
            &&& fits && !m.truncated && m.answers.len() > 0 && m.answers[0] is Some ==> step
                == ServerStepView::Done(Ok(m.answers[0]->0))
            &&& !fits ==> (step matches ServerStepView::Done(answer) && answer is Err)
            &&& server_step(Err(e), server) == ServerStepView::Done(Err(e))
            &&& server_step(
                udp_result(true, Err(words), id, server),
                server,
            ) matches ServerStepView::Done(answer) && answer is Err
        }),
{
    if m.answers.len() > 0 && m.answers[0] is Some {
        law_first_a_record_is_the_address(m, server, 0, m.answers[0]->0);
    }
}

/// A response over TCP gives the address of its first A record if it is the answer to the query,
/// whether or not it says of itself that it was cut off, and none otherwise.
pub proof fn law_servers_answer_over_tcp(
    m: MessageView,
    words: Seq<char>,
    id: u16,
    server: SocketAddrView,
    k: int,
    ip: Ipv4Addr,
)
    requires
        0 <= k < m.answers.len(),
        m.answers[k] == Some(ip),
        forall|j: int| 0 <= j < k ==> (#[trigger] m.answers[j]) is None,
    ensures
        m.id == id && m.is_response && m.response_code == 0 ==> tcp_answer(Ok(m), id, server)
            == Ok::<Ipv4Addr, EcErrorView>(ip),
        m.id != id || !m.is_response || m.response_code != 0 ==> tcp_answer(Ok(m), id, server)
            is Err,
        tcp_answer(Err(words), id, server) is Err,
{
    law_first_a_record_is_the_address(m, server, k, ip);
}

} // verus!
